use vstd::prelude::*;

use crate::error::SolveError;
use crate::term::{term_wf, Term, MAX_UNITS};

verus! {

/// True when some term of `s` carries the symbol `c`.
pub open spec fn has_sym(s: Seq<Term>, c: char) -> bool {
    exists|i: int| 0 <= i < s.len() && (#[trigger] s[i]).variable == c
}

/// The index of the term carrying `c`; meaningful only under `has_sym`.
pub open spec fn idx_of(s: Seq<Term>, c: char) -> int {
    choose|i: int| 0 <= i < s.len() && (#[trigger] s[i]).variable == c
}

/// The coefficient attached to `c`, or zero when no term carries it.
pub open spec fn coeff_of(s: Seq<Term>, c: char) -> int {
    if has_sym(s, c) {
        s[idx_of(s, c)].coefficient as int
    } else {
        0
    }
}

/// No two terms carry the same symbol.
pub open spec fn syms_distinct(s: Seq<Term>) -> bool {
    forall|i: int, j: int|
        0 <= i < j < s.len() ==> (#[trigger] s[i]).variable != (#[trigger] s[j]).variable
}

/// An expression is well formed when its terms are well formed and carry
/// pairwise distinct symbols.
pub open spec fn expr_wf(s: Seq<Term>) -> bool {
    &&& syms_distinct(s)
    &&& forall|i: int| 0 <= i < s.len() ==> term_wf(#[trigger] s[i])
}

/// Under distinctness, the term at any index is the one `coeff_of` reads.
pub proof fn lemma_coeff_at(s: Seq<Term>, i: int)
    requires
        syms_distinct(s),
        0 <= i < s.len(),
    ensures
        has_sym(s, s[i].variable),
        coeff_of(s, s[i].variable) == s[i].coefficient,
{
    let c = s[i].variable;
    assert(has_sym(s, c));
    let j = idx_of(s, c);
    assert(0 <= j < s.len() && s[j].variable == c);
    if i != j {
        assert(false);
    }
}

/// Every coefficient a well-formed expression stores is in range.
pub proof fn lemma_coeff_bounds(s: Seq<Term>)
    requires
        expr_wf(s),
    ensures
        forall|c: char| -MAX_UNITS <= #[trigger] coeff_of(s, c) <= MAX_UNITS,
{
    assert forall|c: char| -MAX_UNITS <= #[trigger] coeff_of(s, c) <= MAX_UNITS by {
        if has_sym(s, c) {
            let i = idx_of(s, c);
            assert(0 <= i < s.len() && s[i].variable == c);
            assert(term_wf(s[i]));
        }
    }
}

/// Replacing the term at `i` with one carrying the same symbol only moves
/// that symbol's coefficient.
proof fn lemma_update_coeff(s: Seq<Term>, i: int, t: Term)
    requires
        syms_distinct(s),
        0 <= i < s.len(),
        t.variable == s[i].variable,
    ensures
        syms_distinct(s.update(i, t)),
        forall|c: char| #[trigger] has_sym(s.update(i, t), c) == has_sym(s, c),
        forall|c: char|
            c != t.variable ==> #[trigger] coeff_of(s.update(i, t), c) == coeff_of(s, c),
        coeff_of(s.update(i, t), t.variable) == t.coefficient,
{
    let s2 = s.update(i, t);
    assert(forall|j: int| 0 <= j < s.len() ==> (#[trigger] s2[j]).variable == s[j].variable);
    assert forall|c: char| #[trigger] has_sym(s2, c) == has_sym(s, c) by {
        if has_sym(s2, c) {
            let j = idx_of(s2, c);
            assert(s[j].variable == c);
        }
        if has_sym(s, c) {
            let j = idx_of(s, c);
            assert(s2[j].variable == c);
        }
    }
    assert forall|c: char| c != t.variable implies #[trigger] coeff_of(s2, c) == coeff_of(s, c) by {
        if has_sym(s2, c) {
            let j = idx_of(s2, c);
            assert(0 <= j < s2.len() && s2[j].variable == c);
            assert(j != i);
            lemma_coeff_at(s, j);
        }
    }
    let j = idx_of(s2, t.variable);
    assert(s2[i].variable == t.variable);
    assert(0 <= j < s2.len() && s2[j].variable == t.variable);
    if j != i {
        assert(s[j].variable == s[i].variable);
        assert(false);
    }
}

/// Appending a term with a fresh symbol adds that symbol and changes no
/// other coefficient.
proof fn lemma_push_coeff(s: Seq<Term>, t: Term)
    requires
        syms_distinct(s),
        !has_sym(s, t.variable),
    ensures
        syms_distinct(s.push(t)),
        forall|c: char| c != t.variable ==> #[trigger] has_sym(s.push(t), c) == has_sym(s, c),
        forall|c: char| c != t.variable ==> #[trigger] coeff_of(s.push(t), c) == coeff_of(s, c),
        has_sym(s.push(t), t.variable),
        coeff_of(s.push(t), t.variable) == t.coefficient,
{
    let s2 = s.push(t);
    assert(forall|j: int| 0 <= j < s.len() ==> (#[trigger] s2[j]) == s[j]);
    assert(s2[s.len() as int] == t);
    assert forall|i: int, j: int| 0 <= i < j < s2.len() implies (#[trigger] s2[i]).variable != (
    #[trigger] s2[j]).variable by {
        if j == s.len() as int {
            assert(s2[i] == s[i]);
            if s[i].variable == t.variable {
                assert(has_sym(s, t.variable));
            }
        }
    }
    assert forall|c: char| c != t.variable implies #[trigger] has_sym(s2, c) == has_sym(s, c) by {
        if has_sym(s2, c) {
            let j = idx_of(s2, c);
            assert(0 <= j < s2.len() && s2[j].variable == c);
            assert(j < s.len());
            assert(s[j].variable == c);
        }
        if has_sym(s, c) {
            let j = idx_of(s, c);
            assert(s2[j].variable == c);
        }
    }
    assert forall|c: char| c != t.variable implies #[trigger] coeff_of(s2, c) == coeff_of(s, c) by {
        if has_sym(s2, c) {
            let j = idx_of(s2, c);
            assert(0 <= j < s2.len() && s2[j].variable == c);
            assert(j < s.len());
            lemma_coeff_at(s, j);
            lemma_coeff_at(s2, j);
        }
    }
    lemma_coeff_at(s2, s.len() as int);
}

/// Removing the term at `i` drops its symbol and changes no other
/// coefficient.
proof fn lemma_remove_coeff(s: Seq<Term>, i: int)
    requires
        syms_distinct(s),
        0 <= i < s.len(),
    ensures
        syms_distinct(s.remove(i)),
        !has_sym(s.remove(i), s[i].variable),
        forall|c: char| c != s[i].variable ==> #[trigger] has_sym(s.remove(i), c) == has_sym(s, c),
        forall|c: char|
            c != s[i].variable ==> #[trigger] coeff_of(s.remove(i), c) == coeff_of(s, c),
{
    let s2 = s.remove(i);
    assert(forall|j: int| 0 <= j < i ==> (#[trigger] s2[j]) == s[j]);
    assert(forall|j: int| i <= j < s2.len() ==> (#[trigger] s2[j]) == s[j + 1]);
    assert forall|a: int, b: int| 0 <= a < b < s2.len() implies (#[trigger] s2[a]).variable != (
    #[trigger] s2[b]).variable by {
        let a0 = if a < i {
            a
        } else {
            a + 1
        };
        let b0 = if b < i {
            b
        } else {
            b + 1
        };
        assert(s2[a] == s[a0] && s2[b] == s[b0]);
    }
    if has_sym(s2, s[i].variable) {
        let j = idx_of(s2, s[i].variable);
        assert(0 <= j < s2.len() && s2[j].variable == s[i].variable);
        let j0 = if j < i {
            j
        } else {
            j + 1
        };
        assert(s[j0].variable == s[i].variable && j0 != i);
        assert(false);
    }
    assert forall|c: char| c != s[i].variable implies #[trigger] has_sym(s2, c) == has_sym(s, c) by {
        if has_sym(s2, c) {
            let j = idx_of(s2, c);
            let j0 = if j < i {
                j
            } else {
                j + 1
            };
            assert(s[j0].variable == c);
        }
        if has_sym(s, c) {
            let j = idx_of(s, c);
            assert(0 <= j < s.len() && s[j].variable == c);
            assert(j != i);
            let j2 = if j < i {
                j
            } else {
                j - 1
            };
            assert(s2[j2].variable == c);
        }
    }
    assert forall|c: char| c != s[i].variable implies #[trigger] coeff_of(s2, c) == coeff_of(s, c)
    by {
        if has_sym(s2, c) {
            let j = idx_of(s2, c);
            let j0 = if j < i {
                j
            } else {
                j + 1
            };
            assert(s2[j] == s[j0]);
            lemma_coeff_at(s, j0);
            lemma_coeff_at(s2, j);
        }
    }
}

/// An unordered sum of terms with at most one term per symbol: merging a
/// term for a symbol that is already present adds the coefficients.
#[derive(Debug)]
pub struct Expression {
    /// The terms, in insertion order, with pairwise distinct symbols.
    pub terms: Vec<Term>,
}

impl Expression {
    /// The expression with no terms at all.
    pub fn empty() -> (e: Expression)
        ensures
            expr_wf(e.terms@),
            e.terms@.len() == 0,
            forall|c: char| !has_sym(e.terms@, c),
    {
        Expression { terms: Vec::new() }
    }

    /// Returns a deep copy of this expression.
    pub fn duplicate(&self) -> (r: Expression)
        ensures
            r.terms@ == self.terms@,
    {
        let mut out: Vec<Term> = Vec::new();
        let mut j: usize = 0;
        while j < self.terms.len()
            invariant
                j <= self.terms@.len(),
                out@ == self.terms@.take(j as int),
            decreases self.terms@.len() - j,
        {
            out.push(self.terms[j]);
            proof {
                assert(self.terms@.take(j + 1) =~= self.terms@.take(j as int).push(
                    self.terms@[j as int],
                ));
            }
            j += 1;
        }
        proof {
            assert(self.terms@.take(self.terms@.len() as int) =~= self.terms@);
        }
        Expression { terms: out }
    }

    /// The index of the term carrying `variable`, if one is present.
    fn find_sym(&self, variable: char) -> (r: Option<usize>)
        ensures
            match r {
                Some(i) => i < self.terms@.len() && self.terms@[i as int].variable == variable,
                None => !has_sym(self.terms@, variable),
            },
    {
        let mut i: usize = 0;
        while i < self.terms.len()
            invariant
                i <= self.terms@.len(),
                forall|j: int| 0 <= j < i ==> (#[trigger] self.terms@[j]).variable != variable,
            decreases self.terms@.len() - i,
        {
            if self.terms[i].variable == variable {
                return Some(i);
            }
            i += 1;
        }
        None
    }

    /// Adds `term.coefficient` into the entry for its symbol, inserting a
    /// new entry when the symbol is not yet present; fails only when the
    /// merged coefficient would leave the representable range, leaving the
    /// expression unchanged.
    pub fn add_term(&mut self, term: Term) -> (r: Result<(), SolveError>)
        requires
            expr_wf(old(self).terms@),
            term_wf(term),
        ensures
            ({
                let s0 = old(self).terms@;
                let s1 = final(self).terms@;
                match r {
                    Ok(()) => {
                        &&& expr_wf(s1)
                        &&& -MAX_UNITS <= coeff_of(s0, term.variable) + term.coefficient
                            <= MAX_UNITS
                        &&& forall|c: char|
                            c != term.variable ==> #[trigger] has_sym(s1, c) == has_sym(s0, c)
                        &&& forall|c: char|
                            c != term.variable ==> #[trigger] coeff_of(s1, c) == coeff_of(s0, c)
                        &&& has_sym(s1, term.variable)
                        &&& coeff_of(s1, term.variable) == coeff_of(s0, term.variable)
                            + term.coefficient
                    },
                    Err(e) => {
                        &&& e == SolveError::OutOfRange
                        &&& s1 == s0
                        &&& !(-MAX_UNITS <= coeff_of(s0, term.variable) + term.coefficient
                            <= MAX_UNITS)
                    },
                }
            }),
    {
        match self.find_sym(term.variable) {
            Some(i) => {
                proof {
                    lemma_coeff_at(self.terms@, i as int);
                }
                let cur = self.terms[i].coefficient;
                assert(term_wf(self.terms@[i as int]));
                let sum = cur + term.coefficient;
                if sum > MAX_UNITS || sum < -MAX_UNITS {
                    return Err(SolveError::OutOfRange);
                }
                let merged = Term { coefficient: sum, variable: term.variable };
                self.terms[i] = merged;
                proof {
                    lemma_update_coeff(old(self).terms@, i as int, merged);
                }
                Ok(())
            },
            None => {
                self.terms.push(term);
                proof {
                    lemma_push_coeff(old(self).terms@, term);
                }
                Ok(())
            },
        }
    }

    /// The term for `variable`, or a zero term for it when absent.
    pub fn get_term(&self, variable: char) -> (t: Term)
        requires
            expr_wf(self.terms@),
        ensures
            t.variable == variable,
            t.coefficient == coeff_of(self.terms@, variable),
    {
        match self.find_sym(variable) {
            Some(i) => {
                proof {
                    lemma_coeff_at(self.terms@, i as int);
                }
                self.terms[i]
            },
            None => Term { coefficient: 0, variable },
        }
    }

    /// Removes and returns the term for `variable`, if present.
    pub fn remove_term(&mut self, variable: char) -> (r: Option<Term>)
        requires
            expr_wf(old(self).terms@),
        ensures
            ({
                let s0 = old(self).terms@;
                let s1 = final(self).terms@;
                &&& expr_wf(s1)
                &&& !has_sym(s1, variable)
                &&& forall|c: char|
                    c != variable ==> #[trigger] has_sym(s1, c) == has_sym(s0, c)
                &&& forall|c: char|
                    c != variable ==> #[trigger] coeff_of(s1, c) == coeff_of(s0, c)
                &&& match r {
                    Some(t) => has_sym(s0, variable) && t.variable == variable && t.coefficient
                        == coeff_of(s0, variable) && term_wf(t),
                    None => !has_sym(s0, variable) && s1 == s0,
                }
            }),
    {
        match self.find_sym(variable) {
            Some(i) => {
                proof {
                    lemma_coeff_at(self.terms@, i as int);
                    lemma_remove_coeff(self.terms@, i as int);
                }
                let t = self.terms.remove(i);
                Some(t)
            },
            None => None,
        }
    }

    /// Returns a copy of this expression with every coefficient negated.
    pub fn get_negated(&self) -> (r: Expression)
        requires
            expr_wf(self.terms@),
        ensures
            expr_wf(r.terms@),
            forall|c: char| #[trigger] has_sym(r.terms@, c) == has_sym(self.terms@, c),
            forall|c: char| #[trigger] coeff_of(r.terms@, c) == -coeff_of(self.terms@, c),
    {
        let mut out: Vec<Term> = Vec::new();
        let mut i: usize = 0;
        while i < self.terms.len()
            invariant
                i <= self.terms@.len(),
                expr_wf(self.terms@),
                out@.len() == i,
                forall|j: int|
                    0 <= j < i ==> (#[trigger] out@[j]).variable == self.terms@[j].variable
                        && out@[j].coefficient == -self.terms@[j].coefficient,
            decreases self.terms@.len() - i,
        {
            let t = self.terms[i];
            assert(term_wf(self.terms@[i as int]));
            out.push(Term { coefficient: -t.coefficient, variable: t.variable });
            i += 1;
        }
        let r = Expression { terms: out };
        proof {
            lemma_pointwise_neg(self.terms@, r.terms@);
        }
        r
    }

    /// Flips the sign of every coefficient in place.
    pub fn negate(&mut self)
        requires
            expr_wf(old(self).terms@),
        ensures
            expr_wf(final(self).terms@),
            forall|c: char|
                #[trigger] has_sym(final(self).terms@, c) == has_sym(old(self).terms@, c),
            forall|c: char|
                #[trigger] coeff_of(final(self).terms@, c) == -coeff_of(old(self).terms@, c),
    {
        let n = self.get_negated();
        self.terms = n.terms;
    }
}

/// The total coefficient a list of (not necessarily distinct) terms
/// contributes to the symbol `c`.
pub open spec fn list_coeff(s: Seq<Term>, c: char) -> int
    decreases s.len(),
{
    if s.len() == 0 {
        0
    } else {
        list_coeff(s.drop_last(), c) + if s.last().variable == c {
            s.last().coefficient as int
        } else {
            0
        }
    }
}

/// Merging the terms of `s` one after the other never leaves the
/// representable coefficient range, at any intermediate point.
pub open spec fn merge_list_ok(s: Seq<Term>) -> bool {
    forall|n: int, c: char|
        0 <= n <= s.len() ==> -MAX_UNITS <= #[trigger] list_coeff(s.take(n), c) <= MAX_UNITS
}

/// A symbol no term carries contributes nothing.
pub proof fn lemma_list_coeff_absent(s: Seq<Term>, c: char)
    requires
        !has_sym(s, c),
    ensures
        list_coeff(s, c) == 0,
    decreases s.len(),
{
    if s.len() > 0 {
        let p = s.drop_last();
        assert(!has_sym(p, c)) by {
            if has_sym(p, c) {
                let j = idx_of(p, c);
                assert(s[j].variable == c);
            }
        }
        lemma_list_coeff_absent(p, c);
        if s.last().variable == c {
            assert(s[s.len() - 1].variable == c);
        }
    }
}

/// For distinct symbols, the list total of each symbol is exactly the
/// stored coefficient.
pub proof fn lemma_list_coeff_distinct(s: Seq<Term>)
    requires
        syms_distinct(s),
    ensures
        forall|c: char| #[trigger] list_coeff(s, c) == coeff_of(s, c),
    decreases s.len(),
{
    if s.len() == 0 {
        assert forall|c: char| #[trigger] list_coeff(s, c) == coeff_of(s, c) by {
            if has_sym(s, c) {
                let j = idx_of(s, c);
            }
        }
    } else {
        let p = s.drop_last();
        let t = s.last();
        assert(forall|j: int| 0 <= j < p.len() ==> (#[trigger] p[j]) == s[j]);
        lemma_list_coeff_distinct(p);
        assert(!has_sym(p, t.variable)) by {
            if has_sym(p, t.variable) {
                let j = idx_of(p, t.variable);
                assert(s[j].variable == s[s.len() - 1].variable);
            }
        }
        lemma_list_coeff_absent(p, t.variable);
        assert(p.push(t) =~= s);
        lemma_push_coeff(p, t);
        assert forall|c: char| #[trigger] list_coeff(s, c) == coeff_of(s, c) by {
            if c == t.variable {
                assert(list_coeff(s, c) == list_coeff(p, c) + t.coefficient);
            } else {
                assert(list_coeff(s, c) == list_coeff(p, c));
            }
        }
    }
}

/// Appending a term makes its symbol present and leaves the others as they
/// were.
pub proof fn lemma_has_push(s: Seq<Term>, t: Term)
    ensures
        forall|c: char| #[trigger] has_sym(s.push(t), c) == (has_sym(s, c) || t.variable == c),
{
    let s2 = s.push(t);
    assert forall|c: char| #[trigger] has_sym(s2, c) == (has_sym(s, c) || t.variable == c) by {
        if has_sym(s2, c) {
            let j = idx_of(s2, c);
            if j < s.len() {
                assert(s[j].variable == c);
            }
        }
        if has_sym(s, c) {
            let j = idx_of(s, c);
            assert(s2[j].variable == c);
        }
        if t.variable == c {
            assert(s2[s.len() as int].variable == c);
        }
    }
}

/// Removing one term takes exactly its contribution out of every total.
proof fn lemma_list_coeff_remove(s: Seq<Term>, k: int)
    requires
        0 <= k < s.len(),
    ensures
        forall|c: char|
            #[trigger] list_coeff(s, c) == list_coeff(s.remove(k), c) + (if s[k].variable == c {
                s[k].coefficient as int
            } else {
                0
            }),
    decreases s.len(),
{
    if k == s.len() - 1 {
        assert(s.remove(k) =~= s.drop_last());
    } else {
        let p = s.drop_last();
        lemma_list_coeff_remove(p, k);
        assert(s.remove(k).drop_last() =~= p.remove(k));
        assert(s.remove(k).last() == s.last());
        assert(p[k] == s[k]);
        assert forall|c: char|
            #[trigger] list_coeff(s, c) == list_coeff(s.remove(k), c) + (if s[k].variable == c {
                s[k].coefficient as int
            } else {
                0
            }) by {
            assert(list_coeff(s, c) == list_coeff(p, c) + if s.last().variable == c {
                s.last().coefficient as int
            } else {
                0
            });
            assert(list_coeff(s.remove(k), c) == list_coeff(p.remove(k), c)
                + if s.last().variable == c {
                s.last().coefficient as int
            } else {
                0
            });
        }
    }
}

/// Law: merging terms is commutative and associative — two lists that hold
/// the same terms, in any order, give every symbol the same total
/// coefficient.
pub proof fn lemma_merge_permutation(s1: Seq<Term>, s2: Seq<Term>)
    requires
        s1.to_multiset() == s2.to_multiset(),
    ensures
        forall|c: char| #[trigger] list_coeff(s1, c) == list_coeff(s2, c),
    decreases s1.len(),
{
    broadcast use vstd::seq_lib::group_to_multiset_ensures;

    if s1.len() == 0 {
        assert(s1.len() == s1.to_multiset().len());
        assert(s2.len() == s2.to_multiset().len());
        assert(s2.len() == 0);
    } else {
        let t = s1.last();
        let p1 = s1.drop_last();
        assert(p1.push(t) =~= s1);
        assert(p1.push(t).to_multiset() =~= p1.to_multiset().insert(t));
        assert(s1.to_multiset().count(t) > 0) by {
            assert(s1.contains(t));
        }
        assert(s2.to_multiset().count(t) > 0);
        assert(s2.contains(t));
        let k = choose|k: int| 0 <= k < s2.len() && s2[k] == t;
        let p2 = s2.remove(k);
        assert(p2.to_multiset() =~= s2.to_multiset().remove(t));
        assert(s1.remove(s1.len() - 1).to_multiset() =~= s1.to_multiset().remove(t));
        assert(s1.remove(s1.len() - 1) =~= p1);
        assert(p1.to_multiset() == p2.to_multiset());
        lemma_merge_permutation(p1, p2);
        lemma_list_coeff_remove(s2, k);
        assert forall|c: char| #[trigger] list_coeff(s1, c) == list_coeff(s2, c) by {
            assert(list_coeff(s1, c) == list_coeff(p1, c) + if t.variable == c {
                t.coefficient as int
            } else {
                0
            });
            assert(list_coeff(s2, c) == list_coeff(p2, c) + if t.variable == c {
                t.coefficient as int
            } else {
                0
            });
        }
    }
}

impl Expression {
    /// Builds an expression from a list of terms, merging coefficients of
    /// repeated symbols; fails only when an intermediate merge leaves the
    /// representable range.
    pub fn new(terms: Vec<Term>) -> (r: Result<Expression, SolveError>)
        requires
            forall|i: int| 0 <= i < terms@.len() ==> term_wf(#[trigger] terms@[i]),
        ensures
            match r {
                Ok(e) => {
                    &&& merge_list_ok(terms@)
                    &&& expr_wf(e.terms@)
                    &&& forall|c: char| #[trigger] has_sym(e.terms@, c) == has_sym(terms@, c)
                    &&& forall|c: char| #[trigger] coeff_of(e.terms@, c) == list_coeff(terms@, c)
                },
                Err(er) => er == SolveError::OutOfRange && !merge_list_ok(terms@),
            },
    {
        let ghost ts = terms@;
        let mut e = Expression::empty();
        let mut i: usize = 0;
        while i < terms.len()
            invariant
                i <= ts.len(),
                ts == terms@,
                forall|k: int| 0 <= k < ts.len() ==> term_wf(#[trigger] ts[k]),
                expr_wf(e.terms@),
                forall|c: char| #[trigger] has_sym(e.terms@, c) == has_sym(ts.take(i as int), c),
                forall|c: char|
                    #[trigger] coeff_of(e.terms@, c) == list_coeff(ts.take(i as int), c),
                forall|n: int, c: char|
                    0 <= n <= i ==> -MAX_UNITS <= #[trigger] list_coeff(ts.take(n), c)
                        <= MAX_UNITS,
            decreases ts.len() - i,
        {
            let t = terms[i];
            proof {
                assert(ts.take(i + 1).drop_last() =~= ts.take(i as int));
                assert(ts.take(i + 1).last() == ts[i as int]);
                assert(ts.take(i + 1) =~= ts.take(i as int).push(ts[i as int]));
                lemma_has_push(ts.take(i as int), t);
                lemma_coeff_bounds(e.terms@);
            }
            let ghost e0 = e.terms@;
            match e.add_term(t) {
                Ok(()) => {},
                Err(er) => {
                    proof {
                        assert(list_coeff(ts.take(i + 1), t.variable) == coeff_of(e0, t.variable)
                            + t.coefficient);
                        assert(!merge_list_ok(ts));
                    }
                    return Err(er);
                },
            }
            proof {
                assert forall|n: int, c: char| 0 <= n <= i + 1 implies -MAX_UNITS
                    <= #[trigger] list_coeff(ts.take(n), c) <= MAX_UNITS by {
                    if n == i + 1 {
                        if c == t.variable {
                            assert(list_coeff(ts.take(n), c) == list_coeff(ts.take(i as int), c)
                                + t.coefficient);
                        } else {
                            assert(list_coeff(ts.take(n), c) == list_coeff(ts.take(i as int), c));
                        }
                    }
                }
            }
            i += 1;
        }
        proof {
            assert(ts.take(ts.len() as int) =~= ts);
        }
        Ok(e)
    }

    /// Merges every term of `expression` into this one; fails only when a
    /// symbol's combined coefficient would leave the representable range,
    /// leaving this expression unchanged.
    pub fn add_expression(&mut self, expression: Expression) -> (r: Result<(), SolveError>)
        requires
            expr_wf(old(self).terms@),
            expr_wf(expression.terms@),
        ensures
            ({
                let s0 = old(self).terms@;
                let s1 = final(self).terms@;
                let e = expression.terms@;
                match r {
                    Ok(()) => {
                        &&& expr_wf(s1)
                        &&& forall|c: char|
                            #[trigger] has_sym(s1, c) == (has_sym(s0, c) || has_sym(e, c))
                        &&& forall|c: char|
                            #[trigger] coeff_of(s1, c) == coeff_of(s0, c) + coeff_of(e, c)
                    },
                    Err(er) => {
                        &&& er == SolveError::OutOfRange
                        &&& s1 == s0
                        &&& exists|c: char|
                            !(-MAX_UNITS <= coeff_of(s0, c) + #[trigger] coeff_of(e, c)
                                <= MAX_UNITS)
                    },
                }
            }),
    {
        let ghost s0 = self.terms@;
        let ghost e = expression.terms@;
        let mut out = Expression { terms: Vec::new() };
        let mut j: usize = 0;
        while j < self.terms.len()
            invariant
                j <= self.terms@.len(),
                out.terms@ == self.terms@.take(j as int),
            decreases self.terms@.len() - j,
        {
            let t = self.terms[j];
            out.terms.push(t);
            proof {
                assert(self.terms@.take(j + 1) =~= self.terms@.take(j as int).push(
                    self.terms@[j as int],
                ));
            }
            j += 1;
        }
        proof {
            assert(s0.take(s0.len() as int) =~= s0);
        }
        let mut i: usize = 0;
        while i < expression.terms.len()
            invariant
                i <= e.len(),
                e == expression.terms@,
                expr_wf(e),
                expr_wf(s0),
                self.terms@ == s0,
                expr_wf(out.terms@),
                forall|c: char|
                    #[trigger] has_sym(out.terms@, c) == (has_sym(s0, c) || has_sym(
                        e.take(i as int),
                        c,
                    )),
                forall|c: char|
                    #[trigger] coeff_of(out.terms@, c) == coeff_of(s0, c) + list_coeff(
                        e.take(i as int),
                        c,
                    ),
            decreases e.len() - i,
        {
            let t = expression.terms[i];
            proof {
                assert(term_wf(e[i as int]));
                assert(e.take(i + 1).drop_last() =~= e.take(i as int));
                assert(e.take(i + 1).last() == e[i as int]);
                assert(e.take(i + 1) =~= e.take(i as int).push(e[i as int]));
                lemma_has_push(e.take(i as int), t);
                assert(!has_sym(e.take(i as int), t.variable)) by {
                    if has_sym(e.take(i as int), t.variable) {
                        let k = idx_of(e.take(i as int), t.variable);
                        assert(e[k].variable == e[i as int].variable);
                    }
                }
                lemma_list_coeff_absent(e.take(i as int), t.variable);
                lemma_coeff_at(e, i as int);
            }
            let ghost o0 = out.terms@;
            match out.add_term(t) {
                Ok(()) => {},
                Err(er) => {
                    proof {
                        assert(out.terms@ == o0);
                        assert(coeff_of(o0, t.variable) == coeff_of(s0, t.variable) + list_coeff(
                            e.take(i as int),
                            t.variable,
                        ));
                        assert(list_coeff(e.take(i as int), t.variable) == 0);
                        assert(coeff_of(e, t.variable) == t.coefficient);
                        assert(self.terms@ == s0);
                        assert(!(-MAX_UNITS <= coeff_of(s0, t.variable) + coeff_of(e, t.variable)
                            <= MAX_UNITS));
                    }
                    return Err(er);
                },
            }
            i += 1;
        }
        proof {
            assert(e.take(e.len() as int) =~= e);
            lemma_list_coeff_distinct(e);
        }
        self.terms = out.terms;
        Ok(())
    }
}

/// The coefficient a map of merged coefficients holds for `c`, zero when
/// the symbol is absent.
pub open spec fn mget(m: Map<char, int>, c: char) -> int {
    if m.dom().contains(c) {
        m[c]
    } else {
        0
    }
}

/// Merging one parsed term into the coefficients collected so far; fails
/// when the merged coefficient leaves the representable range.
pub open spec fn merge_into(m: Map<char, int>, sym: char, u: int) -> Result<
    Map<char, int>,
    SolveError,
> {
    let s2 = mget(m, sym) + u;
    if -MAX_UNITS <= s2 <= MAX_UNITS {
        Ok(m.insert(sym, s2))
    } else {
        Err(SolveError::OutOfRange)
    }
}

/// The splitter state after reading a prefix of an expression string: the
/// characters of the unfinished term, the coefficients merged so far, and
/// the first error, if any.
pub struct EP {
    pub cur: Seq<char>,
    pub m: Map<char, int>,
    pub err: Option<SolveError>,
}

pub open spec fn ep_init() -> EP {
    EP { cur: Seq::empty(), m: Map::empty(), err: None }
}

/// Parses the unfinished term and merges it into the collected
/// coefficients.
pub open spec fn ep_flush(st: EP) -> EP {
    match crate::term::term_spec(st.cur) {
        Err(e) => EP { err: Some(e), ..st },
        Ok(p) => match merge_into(st.m, p.0, p.1) {
            Err(e) => EP { err: Some(e), ..st },
            Ok(m2) => EP { cur: Seq::empty(), m: m2, ..st },
        },
    }
}

/// One character of the expression splitter: a sign after the start of a
/// term ends that term and begins the next one; the sign belongs to the
/// new term.
pub open spec fn ep_step(st: EP, c: char) -> EP {
    if st.err is Some {
        st
    } else if c == '+' || c == '-' {
        let st2 = if st.cur.len() > 0 {
            ep_flush(st)
        } else {
            st
        };
        if st2.err is Some {
            st2
        } else {
            EP { cur: st2.cur.push(c), ..st2 }
        }
    } else {
        EP { cur: st.cur.push(c), ..st }
    }
}

/// The splitter state after the first `n` characters of `s`.
pub open spec fn ep_scan(s: Seq<char>, n: int) -> EP
    decreases n,
{
    if n <= 0 {
        ep_init()
    } else {
        ep_step(ep_scan(s, n - 1), s[n - 1])
    }
}

/// Once the splitter has hit an error, the rest of the input is ignored.
proof fn lemma_ep_frozen(s: Seq<char>, n: int, k: int)
    requires
        0 <= n <= k,
        ep_scan(s, n).err is Some,
    ensures
        ep_scan(s, k) == ep_scan(s, n),
    decreases k,
{
    if k > n {
        lemma_ep_frozen(s, n, k - 1);
    }
}

/// What parsing an expression string yields: the merged coefficient of
/// every symbol, or the first error.
pub open spec fn expr_spec(s: Seq<char>) -> Result<Map<char, int>, SolveError> {
    let st = ep_scan(s, s.len() as int);
    let st2 = if st.err is None && st.cur.len() > 0 {
        ep_flush(st)
    } else {
        st
    };
    match st2.err {
        Some(e) => Err(e),
        None => Ok(st2.m),
    }
}

/// Relates an executable expression parse to `expr_spec`.
pub open spec fn expr_parse_matches(s: Seq<char>, r: Result<Expression, SolveError>) -> bool {
    match (expr_spec(s), r) {
        (Ok(m), Ok(e)) => {
            &&& expr_wf(e.terms@)
            &&& forall|c: char| #[trigger] has_sym(e.terms@, c) == m.dom().contains(c)
            &&& forall|c: char| #[trigger] coeff_of(e.terms@, c) == mget(m, c)
        },
        (Err(e1), Err(e2)) => e1 == e2,
        _ => false,
    }
}

impl Expression {
    /// Parses an expression from its characters.
    pub fn parse_chars(v: &Vec<char>) -> (r: Result<Expression, SolveError>)
        ensures
            expr_parse_matches(v@, r),
    {
        let mut exp = Expression::empty();
        let mut cur: Vec<char> = Vec::new();
        let mut i: usize = 0;
        while i < v.len()
            invariant
                i <= v@.len(),
                ({
                    let st = ep_scan(v@, i as int);
                    &&& st.err is None
                    &&& cur@ == st.cur
                    &&& expr_wf(exp.terms@)
                    &&& forall|c: char| #[trigger] has_sym(exp.terms@, c) == st.m.dom().contains(c)
                    &&& forall|c: char| #[trigger] coeff_of(exp.terms@, c) == mget(st.m, c)
                }),
            decreases v@.len() - i,
        {
            let c = v[i];
            proof {
                assert(ep_scan(v@, i + 1) == ep_step(ep_scan(v@, i as int), v@[i as int]));
            }
            if c == '+' || c == '-' {
                if cur.len() > 0 {
                    let t = match Term::parse_chars(&cur) {
                        Ok(t) => t,
                        Err(e) => {
                            proof {
                                lemma_ep_frozen(v@, i + 1, v@.len() as int);
                            }
                            return Err(e);
                        },
                    };
                    match exp.add_term(t) {
                        Ok(()) => {},
                        Err(e) => {
                            proof {
                                lemma_ep_frozen(v@, i + 1, v@.len() as int);
                            }
                            return Err(e);
                        },
                    }
                    cur.clear();
                }
                cur.push(c);
                proof {
                    assert(cur@ =~= ep_scan(v@, i + 1).cur);
                }
            } else {
                cur.push(c);
            }
            i += 1;
        }
        let ghost st = ep_scan(v@, v@.len() as int);
        if cur.len() > 0 {
            let t = match Term::parse_chars(&cur) {
                Ok(t) => t,
                Err(e) => {
                    return Err(e);
                },
            };
            match exp.add_term(t) {
                Ok(()) => {},
                Err(e) => {
                    return Err(e);
                },
            }
        }
        Ok(exp)
    }

    /// Parses an expression such as `"8x + 11 - 3y"`; a sign after the
    /// start of a term begins a new term, a leading sign belongs to the
    /// first term.
    pub fn parse(s: &str) -> (r: Result<Expression, SolveError>)
        ensures
            expr_parse_matches(s@, r),
    {
        let v = crate::term::str_to_chars(s);
        Expression::parse_chars(&v)
    }
}

/// The canonical text of an expression: the first term as it stands, each
/// further term joined by ` + `, or by ` - ` with its coefficient negated.
pub open spec fn render_expr_spec(s: Seq<Term>) -> Seq<char>
    decreases s.len(),
{
    if s.len() == 0 {
        Seq::empty()
    } else if s.len() == 1 {
        crate::term::render_term_spec(s[0])
    } else {
        let pre = render_expr_spec(s.drop_last());
        let t = s.last();
        if t.coefficient < 0 {
            pre + seq![' ', '-', ' '] + crate::term::render_term_spec(
                Term { coefficient: ((-(t.coefficient as int)) as i128), variable: t.variable },
            )
        } else {
            pre + seq![' ', '+', ' '] + crate::term::render_term_spec(t)
        }
    }
}

impl Expression {
    /// The canonical text of this expression, as characters.
    pub fn render(&self) -> (r: Vec<char>)
        requires
            expr_wf(self.terms@),
        ensures
            r@ == render_expr_spec(self.terms@),
    {
        let mut v: Vec<char> = Vec::new();
        let mut i: usize = 0;
        while i < self.terms.len()
            invariant
                i <= self.terms@.len(),
                expr_wf(self.terms@),
                v@ == render_expr_spec(self.terms@.take(i as int)),
            decreases self.terms@.len() - i,
        {
            let t = self.terms[i];
            assert(term_wf(self.terms@[i as int]));
            proof {
                assert(self.terms@.take(i + 1).drop_last() =~= self.terms@.take(i as int));
                assert(self.terms@.take(i + 1).last() == self.terms@[i as int]);
            }
            if i == 0 {
                let mut m = t.render();
                v.append(&mut m);
                proof {
                    assert(v@ =~= crate::term::render_term_spec(self.terms@[0]));
                }
            } else if t.coefficient < 0 {
                v.push(' ');
                v.push('-');
                v.push(' ');
                let mut m = t.get_negated().render();
                v.append(&mut m);
                proof {
                    assert(v@ =~= render_expr_spec(self.terms@.take(i as int)) + seq![
                        ' ',
                        '-',
                        ' ',
                    ] + crate::term::render_term_spec(
                        Term {
                            coefficient: ((-(t.coefficient as int)) as i128),
                            variable: t.variable,
                        },
                    ));
                }
            } else {
                v.push(' ');
                v.push('+');
                v.push(' ');
                let mut m = t.render();
                v.append(&mut m);
                proof {
                    assert(v@ =~= render_expr_spec(self.terms@.take(i as int)) + seq![
                        ' ',
                        '+',
                        ' ',
                    ] + crate::term::render_term_spec(t));
                }
            }
            i += 1;
        }
        proof {
            assert(self.terms@.take(self.terms@.len() as int) =~= self.terms@);
        }
        v
    }
}

/// A sequence whose terms carry the same symbols with negated coefficients
/// represents the negated expression.
proof fn lemma_pointwise_neg(s: Seq<Term>, s2: Seq<Term>)
    requires
        expr_wf(s),
        s2.len() == s.len(),
        forall|j: int|
            0 <= j < s.len() ==> (#[trigger] s2[j]).variable == s[j].variable && s2[j].coefficient
                == -s[j].coefficient,
    ensures
        expr_wf(s2),
        forall|c: char| #[trigger] has_sym(s2, c) == has_sym(s, c),
        forall|c: char| #[trigger] coeff_of(s2, c) == -coeff_of(s, c),
{
    assert forall|j: int| 0 <= j < s2.len() implies term_wf(#[trigger] s2[j]) by {
        assert(term_wf(s[j]));
    }
    assert forall|c: char| #[trigger] has_sym(s2, c) == has_sym(s, c) by {
        if has_sym(s2, c) {
            let j = idx_of(s2, c);
            assert(s[j].variable == c);
        }
        if has_sym(s, c) {
            let j = idx_of(s, c);
            assert(s2[j].variable == c);
        }
    }
    assert forall|c: char| #[trigger] coeff_of(s2, c) == -coeff_of(s, c) by {
        if has_sym(s2, c) {
            let j = idx_of(s2, c);
            assert(s2[j].variable == c && s[j].variable == c);
            lemma_coeff_at(s, j);
            lemma_coeff_at(s2, j);
        }
    }
}

} // verus!
