use vstd::prelude::*;

use crate::error::SolveError;
use crate::expression::{
    coeff_of, expr_spec, expr_wf, has_sym, mget, Expression,
};
use crate::term::{str_to_chars, Term, MAX_UNITS};

verus! {

/// How many `=` characters the first `n` characters of `s` hold.
pub open spec fn count_eq(s: Seq<char>, n: int) -> int
    decreases n,
{
    if n <= 0 {
        0
    } else {
        count_eq(s, n - 1) + if s[n - 1] == '=' {
            1int
        } else {
            0int
        }
    }
}

pub(crate) proof fn lemma_count_pos(s: Seq<char>, a: int, n: int)
    requires
        0 <= a < n <= s.len(),
        s[a] == '=',
    ensures
        count_eq(s, n) >= 1,
    decreases n,
{
    if a < n - 1 {
        lemma_count_pos(s, a, n - 1);
    }
    lemma_count_nonneg(s, n - 1);
}

pub(crate) proof fn lemma_count_nonneg(s: Seq<char>, n: int)
    ensures
        count_eq(s, n) >= 0,
    decreases n,
{
    if n > 0 {
        lemma_count_nonneg(s, n - 1);
    }
}

pub(crate) proof fn lemma_count_two(s: Seq<char>, a: int, b: int, n: int)
    requires
        0 <= a < b < n <= s.len(),
        s[a] == '=',
        s[b] == '=',
    ensures
        count_eq(s, n) >= 2,
    decreases n,
{
    if b == n - 1 {
        lemma_count_pos(s, a, n - 1);
    } else {
        lemma_count_two(s, a, b, n - 1);
    }
}

/// A pair of expressions joined by an equality sign.
#[derive(Debug)]
pub struct Equation {
    pub lhs: Expression,
    pub rhs: Expression,
}

/// Both sides of the equation are well formed.
pub open spec fn equation_wf(q: Equation) -> bool {
    &&& expr_wf(q.lhs.terms@)
    &&& expr_wf(q.rhs.terms@)
}

/// Relates an executable equation parse to the split at the unique `=`:
/// an error unless exactly one `=` is present, then each side parses as an
/// expression, the left side first.
pub open spec fn equation_parse_matches(s: Seq<char>, r: Result<Equation, SolveError>) -> bool {
    if count_eq(s, s.len() as int) != 1 {
        r == Err::<Equation, SolveError>(SolveError::MultipleEquals)
    } else {
        let i = choose|i: int| 0 <= i < s.len() && s[i] == '=';
        let ls = s.take(i);
        let rs = s.skip(i + 1);
        match expr_spec(ls) {
            Err(e) => r == Err::<Equation, SolveError>(e),
            Ok(lm) => match expr_spec(rs) {
                Err(e) => r == Err::<Equation, SolveError>(e),
                Ok(rm) => match r {
                    Ok(q) => {
                        &&& equation_wf(q)
                        &&& forall|c: char|
                            #[trigger] has_sym(q.lhs.terms@, c) == lm.dom().contains(c)
                        &&& forall|c: char| #[trigger] coeff_of(q.lhs.terms@, c) == mget(lm, c)
                        &&& forall|c: char|
                            #[trigger] has_sym(q.rhs.terms@, c) == rm.dom().contains(c)
                        &&& forall|c: char| #[trigger] coeff_of(q.rhs.terms@, c) == mget(rm, c)
                    },
                    Err(_) => false,
                },
            },
        }
    }
}

impl Equation {
    /// Pairs two already-parsed sides into an equation.
    pub fn new(lhs: Expression, rhs: Expression) -> (q: Equation)
        ensures
            q.lhs == lhs,
            q.rhs == rhs,
    {
        Equation { lhs, rhs }
    }

    /// Splits `s` at its single `=` and parses both sides.
    pub fn parse(s: &str) -> (r: Result<Equation, SolveError>)
        ensures
            equation_parse_matches(s@, r),
    {
        let v = str_to_chars(s);
        let n = v.len();
        let mut count: usize = 0;
        let mut first: usize = 0;
        let mut found = false;
        let mut i: usize = 0;
        while i < n
            invariant
                i <= n,
                n == v@.len(),
                count <= i,
                count == count_eq(v@, i as int),
                found ==> first < i && v@[first as int] == '=',
                !found ==> count == 0,
                count > 0 ==> found,
            decreases n - i,
        {
            if v[i] == '=' {
                count += 1;
                if !found {
                    found = true;
                    first = i;
                }
            }
            i += 1;
        }
        if count != 1 {
            return Err(SolveError::MultipleEquals);
        }
        proof {
            let ci = choose|i: int| 0 <= i < v@.len() && v@[i] == '=';
            assert(0 <= first < v@.len() && v@[first as int] == '=');
            assert(0 <= ci < v@.len() && v@[ci] == '=');
            if ci < first as int {
                lemma_count_two(v@, ci, first as int, v@.len() as int);
            } else if ci > first as int {
                lemma_count_two(v@, first as int, ci, v@.len() as int);
            }
        }
        let mut lv: Vec<char> = Vec::new();
        let mut j: usize = 0;
        while j < first
            invariant
                j <= first,
                first < v@.len(),
                n == v@.len(),
                lv@ == v@.take(j as int),
            decreases first - j,
        {
            lv.push(v[j]);
            proof {
                assert(v@.take(j + 1) =~= v@.take(j as int).push(v@[j as int]));
            }
            j += 1;
        }
        let mut rv: Vec<char> = Vec::new();
        let mut k: usize = first + 1;
        while k < n
            invariant
                first < k <= n,
                n == v@.len(),
                rv@ == v@.subrange(first + 1, k as int),
            decreases n - k,
        {
            rv.push(v[k]);
            proof {
                assert(v@.subrange(first + 1, k + 1) =~= v@.subrange(first + 1, k as int).push(
                    v@[k as int],
                ));
            }
            k += 1;
        }
        proof {
            assert(rv@ =~= v@.skip(first + 1));
        }
        let lhs = match Expression::parse_chars(&lv) {
            Ok(e) => e,
            Err(e) => {
                return Err(e);
            },
        };
        let rhs = match Expression::parse_chars(&rv) {
            Ok(e) => e,
            Err(e) => {
                return Err(e);
            },
        };
        Ok(Equation { lhs, rhs })
    }

    /// Returns the single expression `lhs - rhs`, every symbol merged;
    /// fails only when a merged coefficient would leave the representable
    /// range.
    pub fn equate_to_zero(&self) -> (r: Result<Expression, SolveError>)
        requires
            equation_wf(*self),
        ensures
            ({
                let l = self.lhs.terms@;
                let rr = self.rhs.terms@;
                match r {
                    Ok(e) => {
                        &&& expr_wf(e.terms@)
                        &&& forall|c: char|
                            #[trigger] has_sym(e.terms@, c) == (has_sym(l, c) || has_sym(rr, c))
                        &&& forall|c: char|
                            #[trigger] coeff_of(e.terms@, c) == coeff_of(l, c) - coeff_of(rr, c)
                    },
                    Err(er) => {
                        &&& er == SolveError::OutOfRange
                        &&& exists|c: char|
                            !(-MAX_UNITS <= coeff_of(l, c) - #[trigger] coeff_of(rr, c)
                                <= MAX_UNITS)
                    },
                }
            }),
    {
        let mut l = self.lhs.duplicate();
        let neg = self.rhs.get_negated();
        let ghost negs = neg.terms@;
        match l.add_expression(neg) {
            Ok(()) => {
                proof {
                    assert forall|c: char|
                        #[trigger] coeff_of(l.terms@, c) == coeff_of(self.lhs.terms@, c)
                            - coeff_of(self.rhs.terms@, c) by {
                        assert(coeff_of(negs, c) == -coeff_of(self.rhs.terms@, c));
                    }
                }
                Ok(l)
            },
            Err(e) => {
                proof {
                    let wc = choose|c: char|
                        !(-MAX_UNITS <= coeff_of(self.lhs.terms@, c) + #[trigger] coeff_of(
                            negs,
                            c,
                        ) <= MAX_UNITS);
                    assert(coeff_of(negs, wc) == -coeff_of(self.rhs.terms@, wc));
                    assert(!(-MAX_UNITS <= coeff_of(self.lhs.terms@, wc) - coeff_of(
                        self.rhs.terms@,
                        wc,
                    ) <= MAX_UNITS));
                }
                Err(e)
            },
        }
    }

    /// Normalizes the equation: all variable terms merged on the left,
    /// the single negated constant on the right (zero when no constant
    /// term was present).
    pub fn move_variables_to_lhs(&self) -> (r: Result<Equation, SolveError>)
        requires
            equation_wf(*self),
        ensures
            ({
                let l = self.lhs.terms@;
                let rr = self.rhs.terms@;
                match r {
                    Ok(q) => {
                        &&& equation_wf(q)
                        &&& canonical_eq(q)
                        &&& !has_sym(q.lhs.terms@, '_')
                        &&& forall|c: char|
                            c != '_' ==> #[trigger] has_sym(q.lhs.terms@, c) == (has_sym(l, c)
                                || has_sym(rr, c))
                        &&& forall|c: char|
                            c != '_' ==> #[trigger] coeff_of(q.lhs.terms@, c) == coeff_of(l, c)
                                - coeff_of(rr, c)
                        &&& forall|c: char| #[trigger] has_sym(q.rhs.terms@, c) == (c == '_')
                        &&& coeff_of(q.rhs.terms@, '_') == coeff_of(rr, '_') - coeff_of(l, '_')
                    },
                    Err(er) => {
                        &&& er == SolveError::OutOfRange
                        &&& exists|c: char|
                            !(-MAX_UNITS <= coeff_of(l, c) - #[trigger] coeff_of(rr, c)
                                <= MAX_UNITS)
                    },
                }
            }),
    {
        let mut z = match self.equate_to_zero() {
            Ok(e) => e,
            Err(e) => {
                return Err(e);
            },
        };
        let constant = match z.remove_term('_') {
            Some(t) => t,
            None => Term { coefficient: 0, variable: '_' },
        };
        let negc = Term { coefficient: -constant.coefficient, variable: '_' };
        let mut rv: Vec<Term> = Vec::new();
        rv.push(negc);
        let rhs = Expression { terms: rv };
        proof {
            assert(rhs.terms@.len() == 1 && rhs.terms@[0] == negc);
            assert forall|c: char| #[trigger] has_sym(rhs.terms@, c) == (c == '_') by {
                if c == '_' {
                    assert(rhs.terms@[0].variable == c);
                }
                if has_sym(rhs.terms@, c) {
                    let j = crate::expression::idx_of(rhs.terms@, c);
                    assert(rhs.terms@[j].variable == c);
                }
            }
            crate::expression::lemma_coeff_at(rhs.terms@, 0);
        }
        Ok(Equation { lhs: z, rhs })
    }
}

impl Equation {
    /// The canonical text of this equation: both sides joined by ` = `.
    pub fn render(&self) -> (r: Vec<char>)
        requires
            equation_wf(*self),
        ensures
            r@ == crate::expression::render_expr_spec(self.lhs.terms@) + seq![' ', '=', ' ']
                + crate::expression::render_expr_spec(self.rhs.terms@),
    {
        let mut v = self.lhs.render();
        v.push(' ');
        v.push('=');
        v.push(' ');
        let mut m = self.rhs.render();
        v.append(&mut m);
        proof {
            assert(v@ =~= crate::expression::render_expr_spec(self.lhs.terms@) + seq![
                ' ',
                '=',
                ' ',
            ] + crate::expression::render_expr_spec(self.rhs.terms@));
        }
        v
    }
}

/// The value of the terms of `s` under an assignment, summed over the
/// symbols listed in `vars`: a variable contributes its coefficient times
/// its assigned value, the constant marker `'_'` contributes its
/// coefficient alone.
pub open spec fn eval_sum(vars: Seq<char>, s: Seq<Term>, asg: Map<char, int>) -> int
    decreases vars.len(),
{
    if vars.len() == 0 {
        0
    } else {
        let c = vars[0];
        let v = if c == '_' {
            1
        } else {
            mget(asg, c)
        };
        coeff_of(s, c) * v + eval_sum(vars.skip(1), s, asg)
    }
}

/// Evaluation is linear: a pointwise difference of coefficients evaluates
/// to the difference of the evaluations.
pub proof fn lemma_eval_linear(
    vars: Seq<char>,
    l: Seq<Term>,
    r: Seq<Term>,
    z: Seq<Term>,
    asg: Map<char, int>,
)
    requires
        forall|c: char| #[trigger] coeff_of(z, c) == coeff_of(l, c) - coeff_of(r, c),
    ensures
        eval_sum(vars, z, asg) == eval_sum(vars, l, asg) - eval_sum(vars, r, asg),
    decreases vars.len(),
{
    if vars.len() > 0 {
        lemma_eval_linear(vars.skip(1), l, r, z, asg);
        let c = vars[0];
        let v: int = if c == '_' {
            1
        } else {
            mget(asg, c)
        };
        assert((coeff_of(l, c) - coeff_of(r, c)) * v == coeff_of(l, c) * v - coeff_of(r, c) * v)
            by (nonlinear_arith);
    }
}

/// Law: when an assignment satisfies an equation — both sides evaluate to
/// the same value over any list of symbols — the merged expression that
/// `equate_to_zero` describes evaluates to zero under that assignment.
pub proof fn lemma_equate_to_zero_eval(
    vars: Seq<char>,
    l: Seq<Term>,
    r: Seq<Term>,
    z: Seq<Term>,
    asg: Map<char, int>,
)
    requires
        forall|c: char| #[trigger] coeff_of(z, c) == coeff_of(l, c) - coeff_of(r, c),
        eval_sum(vars, l, asg) == eval_sum(vars, r, asg),
    ensures
        eval_sum(vars, z, asg) == 0,
{
    lemma_eval_linear(vars, l, r, z, asg);
}

/// A canonical equation: no constant on the left, exactly the constant
/// marker on the right.
pub open spec fn canonical_eq(q: Equation) -> bool {
    &&& equation_wf(q)
    &&& !has_sym(q.lhs.terms@, '_')
    &&& forall|c: char| #[trigger] has_sym(q.rhs.terms@, c) == (c == '_')
}

/// Law: normalization is idempotent.  When `q` is already canonical and
/// `q2` relates to `q` as the result of `move_variables_to_lhs` relates to
/// its input, `q2` carries exactly the coefficients of `q` on both sides.
pub proof fn lemma_move_variables_idempotent(q: Equation, q2: Equation)
    requires
        canonical_eq(q),
        !has_sym(q2.lhs.terms@, '_'),
        forall|c: char|
            c != '_' ==> #[trigger] has_sym(q2.lhs.terms@, c) == (has_sym(q.lhs.terms@, c)
                || has_sym(q.rhs.terms@, c)),
        forall|c: char|
            c != '_' ==> #[trigger] coeff_of(q2.lhs.terms@, c) == coeff_of(q.lhs.terms@, c)
                - coeff_of(q.rhs.terms@, c),
        forall|c: char| #[trigger] has_sym(q2.rhs.terms@, c) == (c == '_'),
        coeff_of(q2.rhs.terms@, '_') == coeff_of(q.rhs.terms@, '_') - coeff_of(q.lhs.terms@, '_'),
    ensures
        forall|c: char| #[trigger] has_sym(q2.lhs.terms@, c) == has_sym(q.lhs.terms@, c),
        forall|c: char| #[trigger] coeff_of(q2.lhs.terms@, c) == coeff_of(q.lhs.terms@, c),
        forall|c: char| #[trigger] has_sym(q2.rhs.terms@, c) == has_sym(q.rhs.terms@, c),
        forall|c: char| #[trigger] coeff_of(q2.rhs.terms@, c) == coeff_of(q.rhs.terms@, c),
{
    assert forall|c: char| #[trigger] has_sym(q2.lhs.terms@, c) == has_sym(q.lhs.terms@, c) by {
        if c != '_' {
            assert(!has_sym(q.rhs.terms@, c));
        }
    }
    assert forall|c: char| #[trigger] coeff_of(q2.lhs.terms@, c) == coeff_of(q.lhs.terms@, c) by {
        if c != '_' {
            assert(!has_sym(q.rhs.terms@, c));
            assert(coeff_of(q.rhs.terms@, c) == 0);
        } else {
            assert(!has_sym(q2.lhs.terms@, c) && !has_sym(q.lhs.terms@, c));
        }
    }
    assert forall|c: char| #[trigger] coeff_of(q2.rhs.terms@, c) == coeff_of(q.rhs.terms@, c) by {
        if c == '_' {
            assert(!has_sym(q.lhs.terms@, '_'));
            assert(coeff_of(q.lhs.terms@, '_') == 0);
        } else {
            assert(!has_sym(q2.rhs.terms@, c) && !has_sym(q.rhs.terms@, c));
        }
    }
}

} // verus!
