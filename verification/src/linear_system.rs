use vstd::prelude::*;

use crate::equation::{equation_parse_matches, equation_wf, Equation};
use crate::error::SolveError;
use crate::expression::{coeff_of, has_sym, Expression};
use crate::term::MAX_UNITS;

verus! {

/// Every equation of the system is well formed.
pub open spec fn system_wf(s: Seq<Equation>) -> bool {
    forall|i: int| 0 <= i < s.len() ==> equation_wf(#[trigger] s[i])
}

/// An equation mentions `c` when either of its sides carries a term for it.
pub open spec fn mentions(q: Equation, c: char) -> bool {
    has_sym(q.lhs.terms@, c) || has_sym(q.rhs.terms@, c)
}

/// A variable of the first `n` equations: any symbol other than the
/// constant marker that one of them mentions.
pub open spec fn prefix_var(s: Seq<Equation>, n: int, c: char) -> bool {
    c != '_' && exists|k: int| 0 <= k < n && mentions(#[trigger] s[k], c)
}

/// A variable of the whole system.
pub open spec fn is_system_var(s: Seq<Equation>, c: char) -> bool {
    prefix_var(s, s.len() as int, c)
}

pub open spec fn distinct_chars(s: Seq<char>) -> bool {
    forall|i: int, j: int| #![trigger s[i], s[j]] 0 <= i < j < s.len() ==> s[i] != s[j]
}

/// Ascending by code point.
pub open spec fn sorted_chars(s: Seq<char>) -> bool {
    forall|i: int, j: int|
        #![trigger s[i], s[j]]
        0 <= i < j < s.len() ==> (s[i] as u32) <= (s[j] as u32)
}

/// Appending a character extends the set of characters held by exactly it.
pub(crate) proof fn lemma_push_contains_char(s: Seq<char>, x: char)
    ensures
        forall|c: char| #[trigger] s.push(x).contains(c) == (s.contains(c) || c == x),
{
    assert forall|c: char| #[trigger] s.push(x).contains(c) == (s.contains(c) || c == x) by {
        if s.push(x).contains(c) {
            let k = choose|k: int| 0 <= k < s.push(x).len() && s.push(x)[k] == c;
            if k < s.len() {
                assert(s[k] == c);
            }
        }
        if s.contains(c) {
            let k = choose|k: int| 0 <= k < s.len() && s[k] == c;
            assert(s.push(x)[k] == c);
        }
        if c == x {
            assert(s.push(x)[s.len() as int] == c);
        }
    }
}

/// Inserting a fresh character at its sorted position keeps the sequence
/// strictly sorted and extends the character set by exactly it.
proof fn lemma_insert_char(s: Seq<char>, p: int, x: char)
    requires
        0 <= p <= s.len(),
        sorted_chars(s),
        distinct_chars(s),
        !s.contains(x),
        forall|q: int| 0 <= q < p ==> ((#[trigger] s[q]) as u32) < (x as u32),
        p < s.len() ==> (s[p] as u32) >= (x as u32),
    ensures
        sorted_chars(s.insert(p, x)),
        distinct_chars(s.insert(p, x)),
        forall|c: char| #[trigger] s.insert(p, x).contains(c) == (s.contains(c) || c == x),
{
    s.insert_ensures(p, x);
    let s2 = s.insert(p, x);
    assert forall|a: int, b: int|
        #![trigger s2[a], s2[b]]
        0 <= a < b < s2.len() implies (s2[a] as u32) <= (s2[b] as u32) && s2[a] != s2[b] by {
        if b < p {
            assert(s2[a] == s[a] && s2[b] == s[b]);
            assert((s[a] as u32) <= (s[b] as u32));
        } else if a < p && b == p {
            assert(s2[a] == s[a] && s2[b] == x);
            assert((s[a] as u32) < (x as u32));
            if s[a] == x {
                assert(s.contains(x));
            }
        } else if a < p && b > p {
            let b0 = b - 1;
            assert(s2[b0 + 1] == s[b0]);
            assert(s2[a] == s[a]);
            assert(a < b0);
            assert((s[a] as u32) <= (s[b0] as u32));
        } else if a == p {
            let b0 = b - 1;
            assert(s2[b0 + 1] == s[b0]);
            assert(s2[a] == x);
            assert(p <= b0 < s.len());
            assert((s[p] as u32) >= (x as u32));
            if p < b0 {
                assert((s[p] as u32) <= (s[b0] as u32));
            } else {
                assert(s[b0] == s[p]);
            }
            if s[b0] == x {
                assert(s.contains(x));
            }
        } else {
            let a0 = a - 1;
            let b0 = b - 1;
            assert(s2[a0 + 1] == s[a0]);
            assert(s2[b0 + 1] == s[b0]);
            assert((s[a0] as u32) <= (s[b0] as u32));
        }
    }
    assert forall|c: char| #[trigger] s2.contains(c) == (s.contains(c) || c == x) by {
        if s2.contains(c) {
            let k = choose|k: int| 0 <= k < s2.len() && s2[k] == c;
            if k < p {
                assert(s[k] == c);
            } else if k == p {
            } else {
                let k0 = k - 1;
                assert(s2[k0 + 1] == s[k0]);
                assert(s[k0] == c);
            }
        }
        if s.contains(c) {
            let k = choose|k: int| 0 <= k < s.len() && s[k] == c;
            if k < p {
                assert(s2[k] == c);
            } else {
                assert(s2[k + 1] == c);
            }
        }
        if c == x {
            assert(s2[p] == c);
        }
    }
}

/// True when the vector holds the character.
pub(crate) fn contains_char(v: &Vec<char>, c: char) -> (r: bool)
    ensures
        r == v@.contains(c),
{
    let mut i: usize = 0;
    while i < v.len()
        invariant
            i <= v@.len(),
            forall|j: int| 0 <= j < i ==> (#[trigger] v@[j]) != c,
        decreases v@.len() - i,
    {
        if v[i] == c {
            return true;
        }
        i += 1;
    }
    false
}

/// Appends every variable symbol of `e` that is not yet collected.
fn collect_syms(vars: &mut Vec<char>, e: &Expression)
    requires
        distinct_chars(old(vars)@),
    ensures
        distinct_chars(final(vars)@),
        forall|c: char|
            #[trigger] final(vars)@.contains(c) == (old(vars)@.contains(c) || (c != '_' && has_sym(
                e.terms@,
                c,
            ))),
{
    let ghost v0 = vars@;
    let mut j: usize = 0;
    while j < e.terms.len()
        invariant
            j <= e.terms@.len(),
            distinct_chars(vars@),
            forall|c: char|
                #[trigger] vars@.contains(c) == (v0.contains(c) || (c != '_' && has_sym(
                    e.terms@.take(j as int),
                    c,
                ))),
        decreases e.terms@.len() - j,
    {
        let t = e.terms[j];
        proof {
            assert(e.terms@.take(j + 1) =~= e.terms@.take(j as int).push(e.terms@[j as int]));
            crate::expression::lemma_has_push(e.terms@.take(j as int), t);
        }
        if t.variable != '_' {
            if !contains_char(vars, t.variable) {
                proof {
                    lemma_push_contains_char(vars@, t.variable);
                    assert forall|a: int, b: int|
                        #![trigger vars@.push(t.variable)[a], vars@.push(t.variable)[b]]
                        0 <= a < b < vars@.push(t.variable).len() implies vars@.push(t.variable)[a]
                        != vars@.push(t.variable)[b] by {
                        if b == vars@.len() {
                            if vars@[a] == t.variable {
                                assert(vars@.contains(t.variable));
                            }
                        }
                    }
                }
                vars.push(t.variable);
            }
        }
        j += 1;
    }
    proof {
        assert(e.terms@.take(e.terms@.len() as int) =~= e.terms@);
    }
}

/// Sorts a list of distinct characters into strictly ascending order,
/// keeping exactly the same characters.
pub(crate) fn sort_chars(v: &mut Vec<char>)
    requires
        distinct_chars(old(v)@),
    ensures
        sorted_chars(final(v)@),
        distinct_chars(final(v)@),
        final(v)@.len() == old(v)@.len(),
        forall|c: char| #[trigger] final(v)@.contains(c) == old(v)@.contains(c),
{
    let ghost v0 = v@;
    let mut out: Vec<char> = Vec::new();
    let mut i: usize = 0;
    while i < v.len()
        invariant
            i <= v@.len(),
            v@ == v0,
            distinct_chars(v0),
            out@.len() == i,
            sorted_chars(out@),
            distinct_chars(out@),
            forall|c: char| #[trigger] out@.contains(c) == v0.take(i as int).contains(c),
        decreases v@.len() - i,
    {
        let x = v[i];
        proof {
            assert(v0.take(i + 1) =~= v0.take(i as int).push(v0[i as int]));
            lemma_push_contains_char(v0.take(i as int), x);
            if out@.contains(x) {
                assert(v0.take(i as int).contains(x));
                let k = choose|k: int| 0 <= k < v0.take(i as int).len() && v0.take(i as int)[k]
                    == x;
                assert(v0[k] == x && v0[i as int] == x);
                assert(false);
            }
        }
        let mut p: usize = 0;
        while p < out.len() && (out[p] as u32) < (x as u32)
            invariant
                p <= out@.len(),
                sorted_chars(out@),
                forall|q: int| 0 <= q < p ==> (#[trigger] out@[q] as u32) < (x as u32),
            decreases out@.len() - p,
        {
            p += 1;
        }
        proof {
            lemma_insert_char(out@, p as int, x);
        }
        out.insert(p, x);
        i += 1;
    }
    proof {
        assert(v0.take(v0.len() as int) =~= v0);
    }
    *v = out;
}

/// The exact data of a square linear system, assembled from normalized
/// equations: the sorted variable symbols, one matrix row per equation in
/// variable order, and the constant vector, all in `10^-12` units.
#[derive(Debug)]
pub struct LinearProblem {
    pub variables: Vec<char>,
    pub matrix: Vec<Vec<i128>>,
    pub constants: Vec<i128>,
}

/// An ordered collection of equations treated jointly.
#[derive(Debug)]
pub struct LinearEquations {
    pub equations: Vec<Equation>,
}

impl LinearEquations {
    /// Wraps already-parsed equations into a system.
    pub fn new(equations: Vec<Equation>) -> (s: LinearEquations)
        ensures
            s.equations == equations,
    {
        LinearEquations { equations }
    }

    /// Parses one equation per line; fails on the first line that does not
    /// parse, reporting its index.
    pub fn from_vec(equations: Vec<&str>) -> (r: Result<LinearEquations, (usize, SolveError)>)
        ensures
            match r {
                Ok(s) => {
                    &&& s.equations@.len() == equations@.len()
                    &&& forall|i: int|
                        0 <= i < equations@.len() ==> equation_parse_matches(
                            equations@[i]@,
                            Ok(#[trigger] s.equations@[i]),
                        )
                    &&& system_wf(s.equations@)
                },
                Err((i, e)) => {
                    &&& i < equations@.len()
                    &&& equation_parse_matches(equations@[i as int]@, Err::<Equation, SolveError>(e))
                },
            },
    {
        let mut eqs: Vec<Equation> = Vec::new();
        let mut i: usize = 0;
        while i < equations.len()
            invariant
                i <= equations@.len(),
                eqs@.len() == i,
                forall|k: int|
                    0 <= k < i ==> equation_parse_matches(
                        equations@[k]@,
                        Ok(#[trigger] eqs@[k]),
                    ),
            decreases equations@.len() - i,
        {
            match Equation::parse(equations[i]) {
                Ok(q) => {
                    eqs.push(q);
                },
                Err(e) => {
                    return Err((i, e));
                },
            }
            i += 1;
        }
        let s = LinearEquations { equations: eqs };
        proof {
            assert forall|k: int| 0 <= k < s.equations@.len() implies equation_wf(
                #[trigger] s.equations@[k],
            ) by {
                assert(equation_parse_matches(equations@[k]@, Ok(s.equations@[k])));
            }
        }
        Ok(s)
    }

    /// The distinct variable symbols mentioned across all equations, in
    /// first-appearance order.
    pub fn get_variables_list(&self) -> (vars: Vec<char>)
        ensures
            distinct_chars(vars@),
            forall|c: char| #[trigger] vars@.contains(c) == is_system_var(self.equations@, c),
    {
        let ghost eqs = self.equations@;
        let mut vars: Vec<char> = Vec::new();
        let mut i: usize = 0;
        while i < self.equations.len()
            invariant
                i <= eqs.len(),
                eqs == self.equations@,
                distinct_chars(vars@),
                forall|c: char| #[trigger] vars@.contains(c) == prefix_var(eqs, i as int, c),
            decreases eqs.len() - i,
        {
            let eq = &self.equations[i];
            let ghost vpre = vars@;
            collect_syms(&mut vars, &eq.lhs);
            collect_syms(&mut vars, &eq.rhs);
            proof {
                assert forall|c: char| #[trigger] vars@.contains(c) == prefix_var(
                    eqs,
                    i + 1,
                    c,
                ) by {
                    if vars@.contains(c) {
                        if vpre.contains(c) {
                            let k = choose|k: int| 0 <= k < i && mentions(#[trigger] eqs[k], c);
                            assert(0 <= k < i + 1 && mentions(eqs[k], c));
                        } else {
                            assert(c != '_' && mentions(eqs[i as int], c));
                        }
                    }
                    if prefix_var(eqs, i + 1, c) {
                        let k = choose|k: int| 0 <= k < i + 1 && mentions(#[trigger] eqs[k], c);
                        if k < i {
                            assert(prefix_var(eqs, i as int, c));
                        } else {
                            assert(mentions(eqs[i as int], c));
                        }
                    }
                }
            }
            i += 1;
        }
        vars
    }

    /// The variable symbols, sorted in strictly ascending order.
    pub fn get_sorted_variables_list(&self) -> (vars: Vec<char>)
        ensures
            sorted_chars(vars@),
            distinct_chars(vars@),
            forall|c: char| #[trigger] vars@.contains(c) == is_system_var(self.equations@, c),
    {
        let mut vars = self.get_variables_list();
        sort_chars(&mut vars);
        vars
    }

    /// Normalizes every equation and assembles the coefficient matrix and
    /// constant vector in sorted variable order.  Entry `(i, j)` is the
    /// canonical left-hand coefficient of variable `j` in equation `i`;
    /// constant `i` is the canonical right-hand constant.  Fails with
    /// `CountMismatch` when the number of distinct variables differs from
    /// the number of equations, and with `OutOfRange` when a merged
    /// coefficient would leave the representable range.
    pub fn assemble(&self) -> (r: Result<LinearProblem, SolveError>)
        requires
            system_wf(self.equations@),
        ensures
            ({
                let eqs = self.equations@;
                match r {
                    Ok(p) => {
                        &&& sorted_chars(p.variables@)
                        &&& distinct_chars(p.variables@)
                        &&& forall|c: char|
                            #[trigger] p.variables@.contains(c) == is_system_var(eqs, c)
                        &&& p.variables@.len() == eqs.len()
                        &&& p.matrix@.len() == eqs.len()
                        &&& p.constants@.len() == eqs.len()
                        &&& forall|i: int|
                            0 <= i < eqs.len() ==> (#[trigger] p.matrix@[i])@.len() == eqs.len()
                        &&& forall|i: int, j: int|
                            #![trigger p.matrix@[i]@[j]]
                            0 <= i < eqs.len() && 0 <= j < eqs.len() ==> p.matrix@[i]@[j]
                                == coeff_of(eqs[i].lhs.terms@, p.variables@[j]) - coeff_of(
                                eqs[i].rhs.terms@,
                                p.variables@[j],
                            )
                        &&& forall|i: int|
                            0 <= i < eqs.len() ==> (#[trigger] p.constants@[i]) == coeff_of(
                                eqs[i].rhs.terms@,
                                '_',
                            ) - coeff_of(eqs[i].lhs.terms@, '_')
                    },
                    Err(e) => {
                        if e == SolveError::CountMismatch {
                            exists|vs: Seq<char>|
                                distinct_chars(vs) && (forall|c: char|
                                    #[trigger] vs.contains(c) == is_system_var(eqs, c))
                                    && vs.len() != eqs.len()
                        } else {
                            e == SolveError::OutOfRange && exists|i: int, c: char|
                                0 <= i < eqs.len() && !(-MAX_UNITS <= #[trigger] coeff_of(
                                    eqs[i].lhs.terms@,
                                    c,
                                ) - coeff_of(eqs[i].rhs.terms@, c) <= MAX_UNITS)
                        }
                    },
                }
            }),
    {
        let ghost eqs = self.equations@;
        let vars = self.get_sorted_variables_list();
        if vars.len() != self.equations.len() {
            proof {
                assert(distinct_chars(vars@) && vars@.len() != eqs.len());
            }
            return Err(SolveError::CountMismatch);
        }
        let mut matrix: Vec<Vec<i128>> = Vec::new();
        let mut constants: Vec<i128> = Vec::new();
        let mut i: usize = 0;
        while i < self.equations.len()
            invariant
                i <= eqs.len(),
                eqs == self.equations@,
                system_wf(eqs),
                sorted_chars(vars@),
                distinct_chars(vars@),
                forall|c: char| #[trigger] vars@.contains(c) == is_system_var(eqs, c),
                vars@.len() == eqs.len(),
                matrix@.len() == i,
                constants@.len() == i,
                forall|k: int| 0 <= k < i ==> (#[trigger] matrix@[k])@.len() == eqs.len(),
                forall|k: int, j: int|
                    #![trigger matrix@[k]@[j]]
                    0 <= k < i && 0 <= j < eqs.len() ==> matrix@[k]@[j] == coeff_of(
                        eqs[k].lhs.terms@,
                        vars@[j],
                    ) - coeff_of(eqs[k].rhs.terms@, vars@[j]),
                forall|k: int|
                    0 <= k < i ==> (#[trigger] constants@[k]) == coeff_of(eqs[k].rhs.terms@, '_')
                        - coeff_of(eqs[k].lhs.terms@, '_'),
            decreases eqs.len() - i,
        {
            let eq = &self.equations[i];
            assert(equation_wf(eqs[i as int]));
            let canon = match eq.move_variables_to_lhs() {
                Ok(q) => q,
                Err(e) => {
                    proof {
                        let wc = choose|c: char|
                            !(-MAX_UNITS <= coeff_of(eqs[i as int].lhs.terms@, c) - #[trigger]
                            coeff_of(eqs[i as int].rhs.terms@, c) <= MAX_UNITS);
                        assert(0 <= i < eqs.len() && !(-MAX_UNITS <= coeff_of(
                            eqs[i as int].lhs.terms@,
                            wc,
                        ) - coeff_of(eqs[i as int].rhs.terms@, wc) <= MAX_UNITS));
                    }
                    return Err(e);
                },
            };
            let mut row: Vec<i128> = Vec::new();
            let mut j: usize = 0;
            while j < vars.len()
                invariant
                    j <= vars@.len(),
                    eqs == self.equations@,
                    system_wf(eqs),
                    i < eqs.len(),
                    vars@.len() == eqs.len(),
                    forall|c: char| #[trigger] vars@.contains(c) == is_system_var(eqs, c),
                    equation_wf(canon),
                    forall|c: char|
                        c != '_' ==> #[trigger] coeff_of(canon.lhs.terms@, c) == coeff_of(
                            eqs[i as int].lhs.terms@,
                            c,
                        ) - coeff_of(eqs[i as int].rhs.terms@, c),
                    row@.len() == j,
                    forall|q: int|
                        0 <= q < j ==> (#[trigger] row@[q]) == coeff_of(
                            eqs[i as int].lhs.terms@,
                            vars@[q],
                        ) - coeff_of(eqs[i as int].rhs.terms@, vars@[q]),
                decreases vars@.len() - j,
            {
                let vj = vars[j];
                proof {
                    assert(vars@.contains(vars@[j as int]));
                    assert(vj != '_');
                }
                let t = canon.lhs.get_term(vj);
                row.push(t.coefficient);
                j += 1;
            }
            let ct = canon.rhs.get_term('_');
            constants.push(ct.coefficient);
            matrix.push(row);
            i += 1;
        }
        Ok(LinearProblem { variables: vars, matrix, constants })
    }
}

} // verus!
