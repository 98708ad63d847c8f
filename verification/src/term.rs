use vstd::prelude::*;
use vstd::string::*;

use crate::error::SolveError;

verus! {

/// A coefficient is stored as an `i128` count of units of `10^-12`: the
/// value `3.5` is the field value `3_500_000_000_000`.
pub const SCALE: i128 = 1_000_000_000_000;

/// Largest coefficient magnitude the library keeps, in `10^-12` units
/// (`10^37`; the sum of any two in-range coefficients still fits in `i128`).
pub const MAX_UNITS: i128 = 10_000_000_000_000_000_000_000_000_000_000_000_000;

/// Most integer digits a parsed coefficient may carry.
pub const MAX_INT_DIGITS: usize = 24;

/// Most fractional digits a parsed coefficient may carry.
pub const MAX_FRAC_DIGITS: usize = 12;

pub open spec fn pow10(n: nat) -> int
    decreases n,
{
    if n == 0 {
        1
    } else {
        10 * pow10((n - 1) as nat)
    }
}

pub proof fn lemma_pow10_pos(n: nat)
    ensures
        pow10(n) >= 1,
    decreases n,
{
    if n > 0 {
        lemma_pow10_pos((n - 1) as nat);
    }
}

pub proof fn lemma_pow10_adds(a: nat, b: nat)
    ensures
        pow10(a + b) == pow10(a) * pow10(b),
    decreases a,
{
    if a == 0 {
    } else {
        lemma_pow10_adds((a - 1) as nat, b);
        assert(pow10(a + b) == 10 * pow10((a - 1) as nat + b));
        vstd::arithmetic::mul::lemma_mul_is_associative(10, pow10((a - 1) as nat), pow10(b));
    }
}

pub proof fn lemma_pow10_mono(a: nat, b: nat)
    requires
        a <= b,
    ensures
        pow10(a) <= pow10(b),
{
    lemma_pow10_adds(a, (b - a) as nat);
    lemma_pow10_pos(a);
    lemma_pow10_pos((b - a) as nat);
    vstd::arithmetic::mul::lemma_mul_inequality(1, pow10((b - a) as nat), pow10(a));
}

/// Ties the recursive definition to the named constants.
pub proof fn lemma_pow10_consts()
    ensures
        pow10(0) == 1,
        pow10(1) == 10,
        pow10(2) == 100,
        pow10(3) == 1000,
        pow10(4) == 10_000,
        pow10(5) == 100_000,
        pow10(6) == 1_000_000,
        pow10(7) == 10_000_000,
        pow10(8) == 100_000_000,
        pow10(9) == 1_000_000_000,
        pow10(10) == 10_000_000_000,
        pow10(11) == 100_000_000_000,
        pow10(12) == SCALE,
        pow10(24) == 1_000_000_000_000_000_000_000_000,
        pow10(36) * 10 == MAX_UNITS,
        pow10(37) == MAX_UNITS,
{
    assert(pow10(0) == 1);
    assert(pow10(1) == 10);
    assert(pow10(2) == 100);
    assert(pow10(3) == 1000);
    assert(pow10(4) == 10_000);
    assert(pow10(5) == 100_000);
    assert(pow10(6) == 1_000_000);
    assert(pow10(7) == 10_000_000);
    assert(pow10(8) == 100_000_000);
    assert(pow10(9) == 1_000_000_000);
    assert(pow10(10) == 10_000_000_000);
    assert(pow10(11) == 100_000_000_000);
    assert(pow10(12) == 1_000_000_000_000);
    assert(pow10(13) == 10_000_000_000_000);
    assert(pow10(14) == 100_000_000_000_000);
    assert(pow10(15) == 1_000_000_000_000_000);
    assert(pow10(16) == 10_000_000_000_000_000);
    assert(pow10(17) == 100_000_000_000_000_000);
    assert(pow10(18) == 1_000_000_000_000_000_000);
    assert(pow10(19) == 10_000_000_000_000_000_000);
    assert(pow10(20) == 100_000_000_000_000_000_000);
    assert(pow10(21) == 1_000_000_000_000_000_000_000);
    assert(pow10(22) == 10_000_000_000_000_000_000_000);
    assert(pow10(23) == 100_000_000_000_000_000_000_000);
    assert(pow10(24) == 1_000_000_000_000_000_000_000_000);
    assert(pow10(25) == 10_000_000_000_000_000_000_000_000);
    assert(pow10(26) == 100_000_000_000_000_000_000_000_000);
    assert(pow10(27) == 1_000_000_000_000_000_000_000_000_000);
    assert(pow10(28) == 10_000_000_000_000_000_000_000_000_000);
    assert(pow10(29) == 100_000_000_000_000_000_000_000_000_000);
    assert(pow10(30) == 1_000_000_000_000_000_000_000_000_000_000);
    assert(pow10(31) == 10_000_000_000_000_000_000_000_000_000_000);
    assert(pow10(32) == 100_000_000_000_000_000_000_000_000_000_000);
    assert(pow10(33) == 1_000_000_000_000_000_000_000_000_000_000_000);
    assert(pow10(34) == 10_000_000_000_000_000_000_000_000_000_000_000);
    assert(pow10(35) == 100_000_000_000_000_000_000_000_000_000_000_000);
    assert(pow10(36) == 1_000_000_000_000_000_000_000_000_000_000_000_000);
    assert(pow10(37) == 10_000_000_000_000_000_000_000_000_000_000_000_000);
}

/// Returns `10^n` for the small exponents the fixed-point scale needs.
pub(crate) fn pow10_exec(n: usize) -> (r: i128)
    requires
        n <= 12,
    ensures
        r == pow10(n as nat),
{
    proof {
        lemma_pow10_consts();
        lemma_pow10_mono(n as nat, 12);
    }
    if n == 0 {
        1
    } else if n == 1 {
        10
    } else if n == 2 {
        100
    } else if n == 3 {
        1000
    } else if n == 4 {
        10_000
    } else if n == 5 {
        100_000
    } else if n == 6 {
        1_000_000
    } else if n == 7 {
        10_000_000
    } else if n == 8 {
        100_000_000
    } else if n == 9 {
        1_000_000_000
    } else if n == 10 {
        10_000_000_000
    } else if n == 11 {
        100_000_000_000
    } else {
        1_000_000_000_000
    }
}

pub open spec fn is_digit_char(c: char) -> bool {
    48 <= c as u32 && c as u32 <= 57
}

pub open spec fn digit_val(c: char) -> int {
    c as u32 - 48
}

pub open spec fn is_alpha_char(c: char) -> bool {
    (65 <= c as u32 && c as u32 <= 90) || (97 <= c as u32 && c as u32 <= 122)
}

/// The tokenizer state after reading a prefix of a term string: the numeric
/// buffer collected so far, the variable seen (or `'_'` when none yet), and
/// the first format error, if any.
pub struct ScanSt {
    pub buf: Seq<char>,
    pub var: char,
    pub err: Option<SolveError>,
}

pub open spec fn scan_init() -> ScanSt {
    ScanSt { buf: Seq::empty(), var: '_', err: None }
}

/// One character of the term tokenizer: digits and points accumulate into
/// the buffer, a sign is accepted only while the buffer is empty, at most
/// one letter names the variable, spaces are skipped, anything else is an
/// error.
pub open spec fn scan_step(st: ScanSt, c: char) -> ScanSt {
    if st.err is Some {
        st
    } else if is_digit_char(c) {
        if st.var != '_' {
            ScanSt { err: Some(SolveError::CoefficientAfterVariable), ..st }
        } else {
            ScanSt { buf: st.buf.push(c), ..st }
        }
    } else if c == '-' || c == '+' {
        if st.buf.len() == 0 {
            ScanSt { buf: st.buf.push(c), ..st }
        } else {
            ScanSt { err: Some(SolveError::TwoOperators), ..st }
        }
    } else if is_alpha_char(c) {
        if st.var == '_' {
            ScanSt { var: c, ..st }
        } else {
            ScanSt { err: Some(SolveError::TwoVariables), ..st }
        }
    } else if c == '.' {
        ScanSt { buf: st.buf.push(c), ..st }
    } else if c == ' ' {
        st
    } else {
        ScanSt { err: Some(SolveError::InvalidCharacter), ..st }
    }
}

/// The tokenizer state after the first `n` characters of `s`.
pub open spec fn scan(s: Seq<char>, n: int) -> ScanSt
    decreases n,
{
    if n <= 0 {
        scan_init()
    } else {
        scan_step(scan(s, n - 1), s[n - 1])
    }
}

/// Once the tokenizer has hit an error, the rest of the input is ignored.
proof fn lemma_scan_frozen(s: Seq<char>, n: int, k: int)
    requires
        0 <= n <= k,
        scan(s, n).err is Some,
    ensures
        scan(s, k) == scan(s, n),
    decreases k,
{
    if k > n {
        lemma_scan_frozen(s, n, k - 1);
    }
}

/// The variable slot holds either the constant marker or a letter.
proof fn lemma_scan_var_wf(s: Seq<char>, n: int)
    ensures
        scan(s, n).var == '_' || is_alpha_char(scan(s, n).var),
    decreases n,
{
    if n > 0 {
        lemma_scan_var_wf(s, n - 1);
    }
}

/// The state of the numeric-buffer evaluator: sign, accumulated mantissa,
/// counts of integer digits, fractional digits, decimal points, and digits
/// overall.  The mantissa freezes as soon as the digit counts leave the
/// supported range, where the result is an error anyway.
pub struct NumSt {
    pub neg: bool,
    pub signed: bool,
    pub m: int,
    pub id: nat,
    pub fd: nat,
    pub dots: nat,
    pub nd: nat,
}

pub open spec fn num_init() -> NumSt {
    NumSt { neg: false, signed: false, m: 0, id: 0, fd: 0, dots: 0, nd: 0 }
}

pub open spec fn num_step(st: NumSt, c: char) -> NumSt {
    if c == '-' || c == '+' {
        NumSt { neg: c == '-', signed: true, ..st }
    } else if is_digit_char(c) {
        let id2 = if st.dots == 0 {
            st.id + 1
        } else {
            st.id
        };
        let fd2 = if st.dots == 0 {
            st.fd
        } else {
            st.fd + 1
        };
        let m2 = if st.dots <= 1 && id2 <= MAX_INT_DIGITS && fd2 <= MAX_FRAC_DIGITS {
            st.m * 10 + digit_val(c)
        } else {
            st.m
        };
        NumSt { m: m2, id: id2, fd: fd2, nd: st.nd + 1, ..st }
    } else if c == '.' {
        NumSt { dots: st.dots + 1, ..st }
    } else {
        st
    }
}

/// The evaluator state after the first `n` characters of a buffer.
pub open spec fn num_scan(s: Seq<char>, n: int) -> NumSt
    decreases n,
{
    if n <= 0 {
        num_init()
    } else {
        num_step(num_scan(s, n - 1), s[n - 1])
    }
}

pub open spec fn cap(n: nat, k: nat) -> nat {
    if n <= k {
        n
    } else {
        k
    }
}

/// The mantissa always stays below ten to the number of digits it kept, so
/// it never leaves `i128` range.
proof fn lemma_num_scan_bounds(s: Seq<char>, n: int)
    ensures
        0 <= num_scan(s, n).m <= pow10(
            cap(num_scan(s, n).id, MAX_INT_DIGITS as nat) + cap(
                num_scan(s, n).fd,
                MAX_FRAC_DIGITS as nat,
            ),
        ) - 1,
        num_scan(s, n).id + num_scan(s, n).fd <= if n <= 0 {
            0
        } else {
            n
        },
        num_scan(s, n).dots <= if n <= 0 {
            0
        } else {
            n
        },
        num_scan(s, n).nd <= if n <= 0 {
            0
        } else {
            n
        },
    decreases n,
{
    if n <= 0 {
        assert(pow10(0) == 1);
    } else {
        lemma_num_scan_bounds(s, n - 1);
        let st = num_scan(s, n - 1);
        let st2 = num_scan(s, n);
        let c = s[n - 1];
        let a = cap(st.id, MAX_INT_DIGITS as nat) + cap(st.fd, MAX_FRAC_DIGITS as nat);
        let a2 = cap(st2.id, MAX_INT_DIGITS as nat) + cap(st2.fd, MAX_FRAC_DIGITS as nat);
        lemma_pow10_mono(a, a2);
        if is_digit_char(c) && !(c == '-' || c == '+') && st2.m != st.m {
            // the guard held: exactly one digit count grew and stayed in range
            assert(a2 == a + 1);
            assert(pow10(a2) == 10 * pow10(a));
        }
    }
}

/// True when the collected buffer is not a number at all (no digits, or
/// more than one decimal point); such a buffer falls back to a default.
pub open spec fn buf_malformed(st: NumSt) -> bool {
    st.nd == 0 || st.dots >= 2
}

/// The documented fallback for a buffer that is not a number: `0` for a
/// constant, `-1` when the buffer is exactly a minus sign, else `1`.
pub open spec fn default_units(st: NumSt, var: char) -> int {
    if var == '_' {
        0
    } else if st.signed && st.neg && st.nd == 0 && st.dots == 0 {
        -(SCALE as int)
    } else {
        SCALE as int
    }
}

/// The value of a finished buffer in `10^-12` units, the fallback for a
/// malformed buffer, or `OutOfRange` for one with too many digits.
pub open spec fn num_value(st: NumSt, var: char) -> Result<int, SolveError> {
    if buf_malformed(st) {
        Ok(default_units(st, var))
    } else if st.id > MAX_INT_DIGITS || st.fd > MAX_FRAC_DIGITS {
        Err(SolveError::OutOfRange)
    } else {
        let mag = st.m * pow10((MAX_FRAC_DIGITS - st.fd) as nat);
        Ok(
            if st.neg {
                -mag
            } else {
                mag
            },
        )
    }
}

/// What parsing one term string yields: the variable symbol (`'_'` for a
/// constant) and the coefficient in `10^-12` units, or the first error.
pub open spec fn term_spec(s: Seq<char>) -> Result<(char, int), SolveError> {
    let st = scan(s, s.len() as int);
    match st.err {
        Some(e) => Err(e),
        None => match num_value(num_scan(st.buf, st.buf.len() as int), st.var) {
            Ok(u) => Ok((st.var, u)),
            Err(e) => Err(e),
        },
    }
}

/// Relates an executable parse result to `term_spec`.
pub open spec fn term_parse_matches(s: Seq<char>, r: Result<Term, SolveError>) -> bool {
    match (term_spec(s), r) {
        (Ok(p), Ok(t)) => t.variable == p.0 && t.coefficient == p.1 && term_wf(t),
        (Err(e1), Err(e2)) => e1 == e2,
        _ => false,
    }
}

/// Runs the tokenizer over a term string, returning the numeric buffer and
/// the variable symbol, or the first format error.
fn scan_chars(v: &Vec<char>) -> (r: Result<(Vec<char>, char), SolveError>)
    ensures
        ({
            let st = scan(v@, v@.len() as int);
            match r {
                Ok(p) => st.err is None && p.0@ == st.buf && p.1 == st.var,
                Err(e) => st.err == Some(e),
            }
        }),
{
    let mut buf: Vec<char> = Vec::new();
    let mut var: char = '_';
    let mut i: usize = 0;
    while i < v.len()
        invariant
            i <= v@.len(),
            scan(v@, i as int).err is None,
            buf@ == scan(v@, i as int).buf,
            var == scan(v@, i as int).var,
        decreases v@.len() - i,
    {
        let c = v[i];
        let cu = c as u32;
        proof {
            assert(scan(v@, i + 1) == scan_step(scan(v@, i as int), v@[i as int]));
        }
        if 48 <= cu && cu <= 57 {
            if var != '_' {
                proof {
                    lemma_scan_frozen(v@, i + 1, v@.len() as int);
                }
                return Err(SolveError::CoefficientAfterVariable);
            }
            buf.push(c);
        } else if c == '-' || c == '+' {
            if buf.len() == 0 {
                buf.push(c);
            } else {
                proof {
                    lemma_scan_frozen(v@, i + 1, v@.len() as int);
                }
                return Err(SolveError::TwoOperators);
            }
        } else if (65 <= cu && cu <= 90) || (97 <= cu && cu <= 122) {
            if var == '_' {
                var = c;
            } else {
                proof {
                    lemma_scan_frozen(v@, i + 1, v@.len() as int);
                }
                return Err(SolveError::TwoVariables);
            }
        } else if c == '.' {
            buf.push(c);
        } else if c == ' ' {
        } else {
            proof {
                lemma_scan_frozen(v@, i + 1, v@.len() as int);
            }
            return Err(SolveError::InvalidCharacter);
        }
        i += 1;
    }
    Ok((buf, var))
}

/// Evaluates a finished numeric buffer for the given variable symbol.
fn eval_buf(buf: &Vec<char>, var: char) -> (r: Result<i128, SolveError>)
    ensures
        ({
            let nv = num_value(num_scan(buf@, buf@.len() as int), var);
            match r {
                Ok(u) => nv == Ok::<int, SolveError>(u as int) && -MAX_UNITS < u < MAX_UNITS,
                Err(e) => nv == Err::<int, SolveError>(e),
            }
        }),
{
    let mut neg = false;
    let mut signed = false;
    let mut m: i128 = 0;
    let mut id: usize = 0;
    let mut fd: usize = 0;
    let mut dots: usize = 0;
    let mut nd: usize = 0;
    let mut i: usize = 0;
    while i < buf.len()
        invariant
            i <= buf@.len(),
            ({
                let st = num_scan(buf@, i as int);
                neg == st.neg && signed == st.signed && m as int == st.m && id as nat == st.id
                    && fd as nat == st.fd && dots as nat == st.dots && nd as nat == st.nd
            }),
        decreases buf@.len() - i,
    {
        let c = buf[i];
        let cu = c as u32;
        proof {
            assert(num_scan(buf@, i + 1) == num_step(num_scan(buf@, i as int), buf@[i as int]));
            lemma_num_scan_bounds(buf@, i as int);
            lemma_num_scan_bounds(buf@, i + 1);
            lemma_pow10_consts();
        }
        if c == '-' || c == '+' {
            neg = c == '-';
            signed = true;
        } else if 48 <= cu && cu <= 57 {
            if dots == 0 {
                id = id + 1;
            } else {
                fd = fd + 1;
            }
            if dots <= 1 && id <= MAX_INT_DIGITS && fd <= MAX_FRAC_DIGITS {
                proof {
                    lemma_pow10_mono((id as nat + fd as nat - 1) as nat, 35);
                    lemma_pow10_mono(35, 36);
                    assert(pow10(36) == 10 * pow10(35));
                }
                m = m * 10 + ((cu - 48) as i128);
            }
            nd = nd + 1;
        } else if c == '.' {
            dots = dots + 1;
        }
        i += 1;
    }
    proof {
        lemma_num_scan_bounds(buf@, buf@.len() as int);
        lemma_pow10_consts();
    }
    if nd == 0 || dots >= 2 {
        if var == '_' {
            Ok(0)
        } else if signed && neg && nd == 0 && dots == 0 {
            Ok(-SCALE)
        } else {
            Ok(SCALE)
        }
    } else if id > MAX_INT_DIGITS || fd > MAX_FRAC_DIGITS {
        Err(SolveError::OutOfRange)
    } else {
        let p = pow10_exec(MAX_FRAC_DIGITS - fd);
        proof {
            let a = (id + fd) as nat;
            let b = (MAX_FRAC_DIGITS - fd) as nat;
            lemma_pow10_adds(a, b);
            lemma_pow10_mono(a + b, 36);
            lemma_pow10_pos(b);
            assert(0 <= m as int * (p as int) <= pow10(a + b) - 1) by (nonlinear_arith)
                requires
                    0 <= m as int <= pow10(a) - 1,
                    p as int == pow10(b),
                    pow10(b) >= 1,
                    pow10(a) * pow10(b) == pow10(a + b),
            ;
        }
        let mag = m * p;
        Ok(
            if neg {
                -mag
            } else {
                mag
            },
        )
    }
}

// What follows proves that parsing is inverse to canonical rendering: for
// any well-formed term whose coefficient the parser's digit caps can carry,
// parsing the rendered text yields the same symbol and coefficient.

/// The tokenizer continued from an arbitrary state.
spec fn scan_from(st: ScanSt, s: Seq<char>, n: int) -> ScanSt
    decreases n,
{
    if n <= 0 {
        st
    } else {
        scan_step(scan_from(st, s, n - 1), s[n - 1])
    }
}

proof fn lemma_scan_is_from(s: Seq<char>, n: int)
    ensures
        scan(s, n) == scan_from(scan_init(), s, n),
    decreases n,
{
    if n > 0 {
        lemma_scan_is_from(s, n - 1);
    }
}

proof fn lemma_scan_from_prefix(st: ScanSt, s1: Seq<char>, s2: Seq<char>, k: int)
    requires
        0 <= k <= s1.len(),
    ensures
        scan_from(st, s1 + s2, k) == scan_from(st, s1, k),
    decreases k,
{
    if k > 0 {
        lemma_scan_from_prefix(st, s1, s2, k - 1);
        assert((s1 + s2)[k - 1] == s1[k - 1]);
    }
}

proof fn lemma_scan_from_app(st: ScanSt, s1: Seq<char>, s2: Seq<char>, n: int)
    requires
        0 <= n <= s2.len(),
    ensures
        scan_from(st, s1 + s2, s1.len() + n) == scan_from(
            scan_from(st, s1, s1.len() as int),
            s2,
            n,
        ),
    decreases n,
{
    if n <= 0 {
        lemma_scan_from_prefix(st, s1, s2, s1.len() as int);
    } else {
        lemma_scan_from_app(st, s1, s2, n - 1);
        assert((s1 + s2)[s1.len() + n - 1] == s2[n - 1]);
    }
}

/// The evaluator continued from an arbitrary state.
spec fn num_from(st: NumSt, s: Seq<char>, n: int) -> NumSt
    decreases n,
{
    if n <= 0 {
        st
    } else {
        num_step(num_from(st, s, n - 1), s[n - 1])
    }
}

proof fn lemma_num_is_from(s: Seq<char>, n: int)
    ensures
        num_scan(s, n) == num_from(num_init(), s, n),
    decreases n,
{
    if n > 0 {
        lemma_num_is_from(s, n - 1);
    }
}

proof fn lemma_num_from_prefix(st: NumSt, s1: Seq<char>, s2: Seq<char>, k: int)
    requires
        0 <= k <= s1.len(),
    ensures
        num_from(st, s1 + s2, k) == num_from(st, s1, k),
    decreases k,
{
    if k > 0 {
        lemma_num_from_prefix(st, s1, s2, k - 1);
        assert((s1 + s2)[k - 1] == s1[k - 1]);
    }
}

proof fn lemma_num_from_app(st: NumSt, s1: Seq<char>, s2: Seq<char>, n: int)
    requires
        0 <= n <= s2.len(),
    ensures
        num_from(st, s1 + s2, s1.len() + n) == num_from(num_from(st, s1, s1.len() as int), s2, n),
    decreases n,
{
    if n <= 0 {
        lemma_num_from_prefix(st, s1, s2, s1.len() as int);
    } else {
        lemma_num_from_app(st, s1, s2, n - 1);
        assert((s1 + s2)[s1.len() + n - 1] == s2[n - 1]);
    }
}

pub open spec fn all_digits(s: Seq<char>) -> bool {
    forall|i: int| 0 <= i < s.len() ==> is_digit_char(#[trigger] s[i])
}

/// The numeric value of a digit string, most significant first.
pub open spec fn digits_val(s: Seq<char>) -> int
    decreases s.len(),
{
    if s.len() == 0 {
        0
    } else {
        digits_val(s.drop_last()) * 10 + digit_val(s.last())
    }
}

proof fn lemma_digit_char_class(d: int)
    requires
        0 <= d <= 9,
    ensures
        is_digit_char(digit_char(d)),
        digit_val(digit_char(d)) == d,
        !is_alpha_char(digit_char(d)),
        digit_char(d) != '.',
        digit_char(d) != '-',
        digit_char(d) != '+',
        digit_char(d) != ' ',
{
}

/// A rendered integer is one or more digits carrying its value.
proof fn lemma_digits_of_props(n: int)
    requires
        0 <= n,
    ensures
        all_digits(digits_of(n)),
        digits_of(n).len() >= 1,
        digits_val(digits_of(n)) == n,
    decreases n,
{
    if n < 10 {
        lemma_digit_char_class(n);
        assert(digits_of(n) == seq![digit_char(n)]);
        assert(seq![digit_char(n)].drop_last() =~= Seq::<char>::empty());
        assert(seq![digit_char(n)].last() == digit_char(n));
        assert(digits_val(Seq::<char>::empty()) == 0);
        assert(digits_val(seq![digit_char(n)]) == digits_val(Seq::<char>::empty()) * 10
            + digit_val(digit_char(n)));
    } else {
        lemma_digits_of_props(n / 10);
        lemma_digit_char_class(n % 10);
        let d = digits_of(n / 10);
        let c = digit_char(n % 10);
        assert(digits_of(n) == d.push(c));
        assert(d.push(c).drop_last() =~= d);
        assert(d.push(c).last() == c);
        assert(digits_val(d.push(c)) == digits_val(d) * 10 + digit_val(c));
        assert forall|i: int| 0 <= i < d.push(c).len() implies is_digit_char(
            #[trigger] d.push(c)[i],
        ) by {
            if i < d.len() {
                assert(d.push(c)[i] == d[i]);
            }
        }
    }
}

/// A number below `10^k` renders in at most `k` digits.
proof fn lemma_digits_of_len(n: int, k: nat)
    requires
        0 <= n < pow10(k),
        1 <= k,
    ensures
        digits_of(n).len() <= k,
    decreases n,
{
    if n < 10 {
    } else {
        assert(pow10(k) == 10 * pow10((k - 1) as nat));
        assert(n / 10 < pow10((k - 1) as nat)) by (nonlinear_arith)
            requires
                n < 10 * pow10((k - 1) as nat),
                n >= 10,
        ;
        lemma_pow10_pos((k - 1) as nat);
        lemma_digits_of_len(n / 10, (k - 1) as nat);
    }
}

/// A zero-padded fraction is exactly `k` digits carrying its value.
proof fn lemma_fixed_digits_props(f: int, k: nat)
    requires
        0 <= f < pow10(k),
    ensures
        all_digits(fixed_digits(f, k)),
        fixed_digits(f, k).len() == k,
        digits_val(fixed_digits(f, k)) == f,
    decreases k,
{
    if k == 0 {
    } else {
        assert(pow10(k) == 10 * pow10((k - 1) as nat));
        assert(f / 10 < pow10((k - 1) as nat)) by (nonlinear_arith)
            requires
                f < 10 * pow10((k - 1) as nat),
                f >= 0,
        ;
        lemma_fixed_digits_props(f / 10, (k - 1) as nat);
        lemma_digit_char_class(f % 10);
        let d = fixed_digits(f / 10, (k - 1) as nat);
        let c = digit_char(f % 10);
        assert(fixed_digits(f, k) == d.push(c));
        assert(d.push(c).drop_last() =~= d);
        assert(digits_val(d.push(c)) == digits_val(d) * 10 + digit_val(c));
        assert forall|i: int| 0 <= i < d.push(c).len() implies is_digit_char(
            #[trigger] d.push(c)[i],
        ) by {
            if i < d.len() {
                assert(d.push(c)[i] == d[i]);
            }
        }
    }
}

/// Stripping trailing zeros keeps the represented fraction.
proof fn lemma_strip(f: int, k: nat)
    requires
        0 <= f < pow10(k),
    ensures
        ({
            let p = strip_zeros(f, k);
            &&& 0 <= p.0 < pow10(p.1)
            &&& p.1 <= k
            &&& f == p.0 * pow10((k - p.1) as nat)
            &&& (f > 0 ==> p.0 > 0)
        }),
    decreases k,
{
    if k > 0 && f % 10 == 0 {
        assert(pow10(k) == 10 * pow10((k - 1) as nat));
        assert(f / 10 < pow10((k - 1) as nat)) by (nonlinear_arith)
            requires
                f < 10 * pow10((k - 1) as nat),
                f >= 0,
        ;
        lemma_strip(f / 10, (k - 1) as nat);
        let p = strip_zeros(f / 10, (k - 1) as nat);
        assert(strip_zeros(f, k) == p);
        let m = (k - p.1) as nat;
        assert(m >= 1);
        assert(pow10(m) == 10 * pow10((m - 1) as nat));
        assert((m - 1) as nat == (k - 1 - p.1) as nat);
        assert(f == (f / 10) * 10);
        assert(f / 10 == p.0 * pow10((k - 1 - p.1) as nat));
        assert(f == p.0 * pow10(m)) by (nonlinear_arith)
            requires
                f == (f / 10) * 10,
                f / 10 == p.0 * pow10((k - 1 - p.1) as nat),
                pow10(m) == 10 * pow10((k - 1 - p.1) as nat),
        ;
    } else {
        assert(strip_zeros(f, k) == (f, k));
        assert(pow10(((k - k) as nat)) == 1);
    }
}

/// Feeding a digit run to the evaluator appends it to the mantissa.
proof fn lemma_num_digits(st: NumSt, d: Seq<char>)
    requires
        all_digits(d),
        st.dots <= 1,
        st.m >= 0,
        st.dots == 0 ==> st.id + d.len() <= MAX_INT_DIGITS && st.fd <= MAX_FRAC_DIGITS,
        st.dots == 1 ==> st.fd + d.len() <= MAX_FRAC_DIGITS && st.id <= MAX_INT_DIGITS,
    ensures
        ({
            let r = num_from(st, d, d.len() as int);
            &&& r.neg == st.neg
            &&& r.signed == st.signed
            &&& r.dots == st.dots
            &&& r.nd == st.nd + d.len()
            &&& (st.dots == 0 ==> r.id == st.id + d.len() && r.fd == st.fd)
            &&& (st.dots == 1 ==> r.fd == st.fd + d.len() && r.id == st.id)
            &&& r.m == st.m * pow10(d.len() as nat) + digits_val(d)
        }),
    decreases d.len(),
{
    if d.len() == 0 {
    } else {
        let p = d.drop_last();
        let c = d.last();
        assert(all_digits(p)) by {
            assert(forall|i: int| 0 <= i < p.len() ==> p[i] == #[trigger] d[i]);
        }
        lemma_num_digits(st, p);
        assert(p + seq![c] =~= d);
        lemma_num_from_prefix(st, p, seq![c], p.len() as int);
        assert(num_from(st, d, d.len() - 1) == num_from(st, p, p.len() as int));
        let r1 = num_from(st, p, p.len() as int);
        let r = num_from(st, d, d.len() as int);
        assert(r == num_step(r1, c));
        assert(is_digit_char(c));
        assert(!(c == '-' || c == '+'));
        assert(digit_val(c) >= 0 && digit_val(c) <= 9);
        assert(r.m == r1.m * 10 + digit_val(c));
        assert(pow10(d.len() as nat) == 10 * pow10(p.len() as nat));
        assert((st.m * pow10(p.len() as nat) + digits_val(p)) * 10 + digit_val(c) == st.m * (10
            * pow10(p.len() as nat)) + (digits_val(p) * 10 + digit_val(c))) by (nonlinear_arith);
        assert(digits_val(d) == digits_val(p) * 10 + digit_val(c));
    }
}

/// A digit-or-point run extends the tokenizer buffer and nothing else.
proof fn lemma_scan_numrun(st: ScanSt, s: Seq<char>)
    requires
        st.err is None,
        st.var == '_',
        forall|i: int| 0 <= i < s.len() ==> is_digit_char(#[trigger] s[i]) || s[i] == '.',
    ensures
        scan_from(st, s, s.len() as int) == (ScanSt { buf: st.buf + s, var: '_', err: None }),
    decreases s.len(),
{
    if s.len() == 0 {
        assert(st.buf + s =~= st.buf);
        assert(st == ScanSt { buf: st.buf, var: '_', err: None });
    } else {
        let p = s.drop_last();
        let c = s.last();
        assert(forall|i: int| 0 <= i < p.len() ==> p[i] == #[trigger] s[i]);
        lemma_scan_numrun(st, p);
        assert(p + seq![c] =~= s);
        lemma_scan_from_prefix(st, p, seq![c], p.len() as int);
        assert(scan_from(st, s, s.len() - 1) == scan_from(st, p, p.len() as int));
        assert(is_digit_char(c) || c == '.');
        assert(!(c == '-' || c == '+') && !is_alpha_char(c) && c != ' ');
        assert(scan_from(st, s, s.len() as int) == scan_step(scan_from(st, s, s.len() - 1), c));
        assert((st.buf + p).push(c) =~= st.buf + s);
    }
}

/// The characters of a rendered magnitude are digits and at most one
/// point.
proof fn lemma_render_mag_chars(u: int)
    requires
        0 <= u < pow10(36),
    ensures
        forall|i: int|
            0 <= i < render_mag(u).len() ==> is_digit_char(#[trigger] render_mag(u)[i])
                || render_mag(u)[i] == '.',
        render_mag(u).len() >= 1,
{
    lemma_pow10_consts();
    let ip = u / (SCALE as int);
    let f = u % (SCALE as int);
    lemma_pow10_adds(24, 12);
    assert(ip < pow10(24)) by (nonlinear_arith)
        requires
            0 <= u < pow10(36),
            pow10(36) == pow10(24) * pow10(12),
            ip == u / pow10(12),
            pow10(12) >= 1,
            pow10(24) >= 1,
    ;
    lemma_digits_of_props(ip);
    if f == 0 {
    } else {
        lemma_strip(f, 12);
        let p = strip_zeros(f, 12);
        lemma_fixed_digits_props(p.0, p.1);
        let r = render_mag(u);
        assert(r == digits_of(ip) + seq!['.'] + fixed_digits(p.0, p.1));
        assert forall|i: int| 0 <= i < r.len() implies is_digit_char(#[trigger] r[i]) || r[i]
            == '.' by {
            let n1 = digits_of(ip).len() as int;
            if i < n1 {
                assert(r[i] == digits_of(ip)[i]);
            } else if i == n1 {
                assert(r[i] == '.');
            } else {
                assert(r[i] == fixed_digits(p.0, p.1)[i - n1 - 1]);
            }
        }
    }
}

/// A rendered magnitude, with an optional leading sign, evaluates back to
/// the signed value.
proof fn lemma_eval_rendered(u: int, neg: bool, var: char)
    requires
        0 <= u < pow10(36),
        neg ==> u > 0,
    ensures
        ({
            let b = if neg {
                seq!['-'] + render_mag(u)
            } else {
                render_mag(u)
            };
            num_value(num_scan(b, b.len() as int), var) == Ok::<int, SolveError>(
                if neg {
                    -u
                } else {
                    u
                },
            )
        }),
{
    lemma_pow10_consts();
    let ip = u / (SCALE as int);
    let f = u % (SCALE as int);
    lemma_pow10_adds(24, 12);
    assert(ip < pow10(24)) by (nonlinear_arith)
        requires
            0 <= u < pow10(36),
            pow10(36) == pow10(24) * pow10(12),
            ip == u / pow10(12),
            pow10(12) >= 1,
            pow10(24) >= 1,
    ;
    lemma_digits_of_props(ip);
    lemma_digits_of_len(ip, 24);
    let d1 = digits_of(ip);
    let n1 = d1.len() as int;
    // the state after the optional sign
    let st1 = if neg {
        NumSt { neg: true, signed: true, m: 0, id: 0, fd: 0, dots: 0, nd: 0 }
    } else {
        num_init()
    };
    assert(num_step(num_init(), '-') == (NumSt {
        neg: true,
        signed: true,
        m: 0,
        id: 0,
        fd: 0,
        dots: 0,
        nd: 0,
    }));
    lemma_num_digits(st1, d1);
    let st2 = num_from(st1, d1, n1);
    assert(st2.m == 0 * pow10(d1.len() as nat) + ip);
    if f == 0 {
        let b = if neg {
            seq!['-'] + d1
        } else {
            d1
        };
        lemma_num_is_from(b, b.len() as int);
        if neg {
            lemma_num_from_app(num_init(), seq!['-'], d1, n1);
            assert(num_from(num_init(), seq!['-'], 0) == num_init());
            assert(num_from(num_init(), seq!['-'], 1) == st1);
        }
        assert(num_scan(b, b.len() as int) == st2);
        assert(!buf_malformed(st2));
        vstd::arithmetic::div_mod::lemma_fundamental_div_mod(u, SCALE as int);
        assert(u == ip * pow10(12) + f);
        assert(st2.m * pow10((12 - st2.fd) as nat) == ip * pow10(12));
    } else {
        lemma_strip(f, 12);
        let p = strip_zeros(f, 12);
        let f2 = p.0;
        let k2 = p.1;
        assert(f2 > 0);
        if k2 == 0 {
            assert(f2 < pow10(0));
            assert(false);
        }
        lemma_fixed_digits_props(f2, k2);
        let d2 = fixed_digits(f2, k2);
        let s1 = if neg {
            seq!['-'] + d1
        } else {
            d1
        };
        let s2 = seq!['.'] + d2;
        let b = s1 + s2;
        assert(render_mag(u) == d1 + seq!['.'] + d2);
        if neg {
            assert(b =~= seq!['-'] + render_mag(u));
        } else {
            assert(b =~= render_mag(u));
        }
        lemma_num_is_from(b, b.len() as int);
        lemma_num_from_app(num_init(), s1, s2, s2.len() as int);
        if neg {
            lemma_num_from_app(num_init(), seq!['-'], d1, n1);
            assert(num_from(num_init(), seq!['-'], 0) == num_init());
            assert(num_from(num_init(), seq!['-'], 1) == st1);
            assert(s1 =~= seq!['-'] + d1);
        }
        assert(num_from(num_init(), s1, s1.len() as int) == st2);
        lemma_num_from_app(st2, seq!['.'], d2, d2.len() as int);
        let st3 = num_step(st2, '.');
        assert(num_from(st2, seq!['.'], 0) == st2);
        assert(num_from(st2, seq!['.'], 1) == st3);
        assert(st3.dots == 1 && st3.m == ip && st3.id == d1.len() && st3.fd == 0);
        lemma_num_digits(st3, d2);
        let st4 = num_from(st3, d2, d2.len() as int);
        assert(num_scan(b, b.len() as int) == st4);
        assert(st4.m == ip * pow10(k2) + f2);
        assert(st4.fd == k2 && st4.id == d1.len() && st4.dots == 1);
        assert(st4.nd == d1.len() + k2);
        assert(!buf_malformed(st4));
        lemma_pow10_adds(k2, (12 - k2) as nat);
        assert(st4.m * pow10((12 - k2) as nat) == ip * pow10(12) + f2 * pow10((12 - k2) as nat))
            by (nonlinear_arith)
            requires
                st4.m == ip * pow10(k2) + f2,
                pow10(k2) * pow10((12 - k2) as nat) == pow10(12),
        ;
        assert(f == f2 * pow10((12 - k2) as nat));
        vstd::arithmetic::div_mod::lemma_fundamental_div_mod(u, SCALE as int);
        assert(u == ip * pow10(12) + f);
    }
}

/// Law: parsing is inverse to canonical rendering.  For every well-formed
/// term whose coefficient the parser's digit caps can carry, parsing the
/// rendered text yields exactly the same symbol and coefficient.
pub proof fn lemma_parse_inverts_render(t: Term)
    requires
        term_wf(t),
        -pow10(36) < t.coefficient < pow10(36),
    ensures
        term_spec(render_term_spec(t)) == Ok::<(char, int), SolveError>(
            (t.variable, t.coefficient as int),
        ),
{
    lemma_pow10_consts();
    let u = t.coefficient as int;
    let v = t.variable;
    if v == '_' {
        let mag = if u < 0 {
            -u
        } else {
            u
        };
        let r = render_term_spec(t);
        lemma_render_mag_chars(mag);
        lemma_scan_is_from(r, r.len() as int);
        if u < 0 {
            assert(r == seq!['-'] + render_mag(mag));
            lemma_scan_from_app(scan_init(), seq!['-'], render_mag(mag), render_mag(mag).len() as int);
            let sts = scan_step(scan_init(), '-');
            assert(scan_from(scan_init(), seq!['-'], 0) == scan_init());
            assert(scan_from(scan_init(), seq!['-'], 1) == sts);
            assert(sts.buf =~= Seq::<char>::empty().push('-'));
            lemma_scan_numrun(sts, render_mag(mag));
            assert(scan(r, r.len() as int).buf =~= r);
        } else {
            lemma_scan_numrun(scan_init(), render_mag(mag));
            assert(scan(r, r.len() as int).buf =~= r);
        }
        let st = scan(r, r.len() as int);
        assert(st.err is None && st.var == '_' && st.buf == r);
        lemma_eval_rendered(mag, u < 0, '_');
    } else if t.coefficient == SCALE {
        let r = render_term_spec(t);
        assert(r == seq![v]);
        assert(scan(r, 1) == scan_step(scan(r, 0), v));
        let st = scan(r, 1);
        assert(st.err is None && st.var == v && st.buf == Seq::<char>::empty());
        assert(num_scan(st.buf, 0) == num_init());
        assert(buf_malformed(num_init()));
        assert(default_units(num_init(), v) == SCALE as int);
    } else if t.coefficient == -SCALE {
        let r = render_term_spec(t);
        assert(r == seq!['-', v]);
        assert(scan(r, 1) == scan_step(scan(r, 0), '-'));
        assert(scan(r, 2) == scan_step(scan(r, 1), v));
        let st = scan(r, 2);
        assert(st.err is None && st.var == v);
        assert(st.buf =~= seq!['-']);
        let nst = num_scan(st.buf, 1);
        assert(nst == num_step(num_scan(st.buf, 0), '-'));
        assert(nst.signed && nst.neg && nst.nd == 0 && nst.dots == 0);
        assert(buf_malformed(nst));
        assert(default_units(nst, v) == -(SCALE as int));
    } else {
        let mag = if u < 0 {
            -u
        } else {
            u
        };
        let units = render_units(u);
        let r = render_term_spec(t);
        assert(r == units.push(v));
        assert(r =~= units + seq![v]);
        lemma_render_mag_chars(mag);
        lemma_scan_is_from(r, r.len() as int);
        lemma_scan_from_app(scan_init(), units, seq![v], 1);
        // the units prefix scans into the buffer with no variable yet
        if u < 0 {
            assert(units == seq!['-'] + render_mag(mag));
            let sts = scan_step(scan_init(), '-');
            assert(scan_from(scan_init(), seq!['-'], 0) == scan_init());
            assert(scan_from(scan_init(), seq!['-'], 1) == sts);
            assert(sts.buf =~= Seq::<char>::empty().push('-'));
            lemma_scan_from_app(scan_init(), seq!['-'], render_mag(mag), render_mag(mag).len() as int);
            lemma_scan_numrun(sts, render_mag(mag));
            assert(scan_from(scan_init(), units, units.len() as int).buf =~= units);
        } else {
            assert(units == render_mag(mag));
            lemma_scan_numrun(scan_init(), units);
            assert(scan_from(scan_init(), units, units.len() as int).buf =~= units);
        }
        let stu = scan_from(scan_init(), units, units.len() as int);
        assert(stu.err is None && stu.var == '_' && stu.buf == units);
        let st = scan(r, r.len() as int);
        assert(scan_from(stu, seq![v], 0) == stu);
        assert(scan_from(stu, seq![v], 1) == scan_step(stu, v));
        assert(st == scan_from(stu, seq![v], 1));
        assert(st == scan_step(stu, v));
        assert(st.err is None && st.var == v && st.buf == units);
        lemma_eval_rendered(mag, u < 0, v);
    }
}

/// Collects the characters of a string slice into a vector.
pub(crate) fn str_to_chars(s: &str) -> (v: Vec<char>)
    ensures
        v@ == s@,
{
    let n = s.unicode_len();
    let mut v: Vec<char> = Vec::new();
    let mut i: usize = 0;
    while i < n
        invariant
            i <= n,
            n == s@.len(),
            v@ == s@.take(i as int),
        decreases n - i,
    {
        let c = s.get_char(i);
        v.push(c);
        proof {
            assert(s@.take(i + 1) =~= s@.take(i as int).push(s@[i as int]));
        }
        i += 1;
    }
    proof {
        assert(s@.take(n as int) =~= s@);
    }
    v
}

/// The character for one decimal digit.
pub open spec fn digit_char(d: int) -> char {
    if d == 0 {
        '0'
    } else if d == 1 {
        '1'
    } else if d == 2 {
        '2'
    } else if d == 3 {
        '3'
    } else if d == 4 {
        '4'
    } else if d == 5 {
        '5'
    } else if d == 6 {
        '6'
    } else if d == 7 {
        '7'
    } else if d == 8 {
        '8'
    } else {
        '9'
    }
}

/// The decimal digits of a nonnegative integer, most significant first.
pub open spec fn digits_of(n: int) -> Seq<char>
    decreases n,
{
    if n < 10 {
        seq![digit_char(n)]
    } else {
        digits_of(n / 10).push(digit_char(n % 10))
    }
}

/// Exactly `k` decimal digits of `f`, zero-padded on the left.
pub open spec fn fixed_digits(f: int, k: nat) -> Seq<char>
    decreases k,
{
    if k == 0 {
        Seq::empty()
    } else {
        fixed_digits(f / 10, (k - 1) as nat).push(digit_char(f % 10))
    }
}

/// Strips trailing decimal zeros from a `k`-digit fraction.
pub open spec fn strip_zeros(f: int, k: nat) -> (int, nat)
    decreases k,
{
    if k > 0 && f % 10 == 0 {
        strip_zeros(f / 10, (k - 1) as nat)
    } else {
        (f, k)
    }
}

/// The canonical decimal text of a nonnegative coefficient magnitude in
/// `10^-12` units: the integer part, then the fractional digits with
/// trailing zeros removed, when any are set.
pub open spec fn render_mag(u: int) -> Seq<char> {
    let ip = u / (SCALE as int);
    let f = u % (SCALE as int);
    if f == 0 {
        digits_of(ip)
    } else {
        let p = strip_zeros(f, 12);
        digits_of(ip) + seq!['.'] + fixed_digits(p.0, p.1)
    }
}

/// The canonical decimal text of a signed coefficient.
pub open spec fn render_units(u: int) -> Seq<char> {
    if u < 0 {
        seq!['-'] + render_mag(-u)
    } else {
        render_mag(u)
    }
}

/// The canonical text of a term: a constant renders as its coefficient, a
/// variable with coefficient one renders as the bare symbol (negated with
/// a leading sign), any other variable term as coefficient then symbol.
pub open spec fn render_term_spec(t: Term) -> Seq<char> {
    if t.variable == '_' {
        render_units(t.coefficient as int)
    } else if t.coefficient == SCALE {
        seq![t.variable]
    } else if t.coefficient == -SCALE {
        seq!['-', t.variable]
    } else {
        render_units(t.coefficient as int).push(t.variable)
    }
}

/// The character for one digit value.
fn digit_char_exec(d: i128) -> (c: char)
    requires
        0 <= d <= 9,
    ensures
        c == digit_char(d as int),
{
    if d == 0 {
        '0'
    } else if d == 1 {
        '1'
    } else if d == 2 {
        '2'
    } else if d == 3 {
        '3'
    } else if d == 4 {
        '4'
    } else if d == 5 {
        '5'
    } else if d == 6 {
        '6'
    } else if d == 7 {
        '7'
    } else if d == 8 {
        '8'
    } else {
        '9'
    }
}

/// The decimal digits of a nonnegative integer.
fn digits_exec(n: i128) -> (r: Vec<char>)
    requires
        0 <= n,
    ensures
        r@ == digits_of(n as int),
    decreases n,
{
    if n < 10 {
        let mut v: Vec<char> = Vec::new();
        v.push(digit_char_exec(n));
        proof {
            assert(v@ =~= seq![digit_char(n as int)]);
        }
        v
    } else {
        let mut v = digits_exec(n / 10);
        v.push(digit_char_exec(n % 10));
        v
    }
}

/// Exactly `k` digits of `f`, zero-padded.
fn fixed_digits_exec(f: i128, k: usize) -> (r: Vec<char>)
    requires
        0 <= f,
    ensures
        r@ == fixed_digits(f as int, k as nat),
    decreases k,
{
    if k == 0 {
        Vec::new()
    } else {
        let mut v = fixed_digits_exec(f / 10, k - 1);
        v.push(digit_char_exec(f % 10));
        v
    }
}

/// The decimal text of a nonnegative coefficient magnitude.
fn render_mag_exec(u: i128) -> (r: Vec<char>)
    requires
        0 <= u,
    ensures
        r@ == render_mag(u as int),
{
    let ip = u / SCALE;
    let f = u % SCALE;
    let mut v = digits_exec(ip);
    if f != 0 {
        v.push('.');
        let mut f2 = f;
        let mut k: usize = 12;
        while k > 0 && f2 % 10 == 0
            invariant
                0 < f2,
                k <= 12,
                strip_zeros(f as int, 12) == strip_zeros(f2 as int, k as nat),
            decreases k,
        {
            f2 = f2 / 10;
            k = k - 1;
        }
        let mut w = fixed_digits_exec(f2, k);
        v.append(&mut w);
        proof {
            assert(v@ =~= digits_of(ip as int) + seq!['.'] + fixed_digits(
                strip_zeros(f as int, 12).0,
                strip_zeros(f as int, 12).1,
            ));
        }
    }
    v
}

/// A single signed coefficient attached to one variable symbol; the symbol
/// `'_'` is the reserved marker for a constant with no variable.
#[derive(Clone, Copy, Debug, PartialEq, Eq, Structural)]
pub struct Term {
    /// The signed coefficient, as an exact count of `10^-12` units.
    pub coefficient: i128,
    /// The variable symbol, or `'_'` for a constant.
    pub variable: char,
}

/// A term is well formed when its coefficient is in the representable range
/// and its symbol is a letter or the constant marker.
pub open spec fn term_wf(t: Term) -> bool {
    &&& -MAX_UNITS <= t.coefficient <= MAX_UNITS
    &&& (t.variable == '_' || is_alpha_char(t.variable))
}

impl Term {
    /// Builds a variable or constant term from its parts.
    pub fn new(coefficient: i128, variable: char) -> (t: Term)
        requires
            -MAX_UNITS <= coefficient <= MAX_UNITS,
        ensures
            t.coefficient == coefficient,
            t.variable == variable,
    {
        Term { coefficient, variable }
    }

    /// Builds a constant term carrying the reserved `'_'` symbol.
    pub fn constant(coefficient: i128) -> (t: Term)
        requires
            -MAX_UNITS <= coefficient <= MAX_UNITS,
        ensures
            t.coefficient == coefficient,
            t.variable == '_',
            term_wf(t),
    {
        Term { coefficient, variable: '_' }
    }

    /// Flips the sign of the coefficient in place.
    pub fn negate(&mut self)
        requires
            -MAX_UNITS <= old(self).coefficient <= MAX_UNITS,
        ensures
            final(self).coefficient == -old(self).coefficient,
            final(self).variable == old(self).variable,
    {
        self.coefficient = -self.coefficient;
    }

    /// Returns a copy with the sign of the coefficient flipped.
    pub fn get_negated(&self) -> (t: Term)
        requires
            -MAX_UNITS <= self.coefficient <= MAX_UNITS,
        ensures
            t.coefficient == -self.coefficient,
            t.variable == self.variable,
    {
        Term { coefficient: -self.coefficient, variable: self.variable }
    }

    /// True when this term is the constant of an expression.
    pub fn is_constant(&self) -> (r: bool)
        ensures
            r == (self.variable == '_'),
    {
        self.variable == '_'
    }

    /// True when both terms carry the same symbol.
    pub fn is_same_variable(&self, other: &Term) -> (r: bool)
        ensures
            r == (self.variable == other.variable),
    {
        self.variable == other.variable
    }

    /// The canonical text of this term, as characters.
    pub fn render(&self) -> (r: Vec<char>)
        requires
            term_wf(*self),
        ensures
            r@ == render_term_spec(*self),
    {
        if self.variable == '_' {
            if self.coefficient < 0 {
                let mut v: Vec<char> = Vec::new();
                v.push('-');
                let mut m = render_mag_exec(-self.coefficient);
                v.append(&mut m);
                proof {
                    assert(v@ =~= seq!['-'] + render_mag(-(self.coefficient as int)));
                }
                v
            } else {
                render_mag_exec(self.coefficient)
            }
        } else if self.coefficient == SCALE {
            let mut v: Vec<char> = Vec::new();
            v.push(self.variable);
            proof {
                assert(v@ =~= seq![self.variable]);
            }
            v
        } else if self.coefficient == -SCALE {
            let mut v: Vec<char> = Vec::new();
            v.push('-');
            v.push(self.variable);
            proof {
                assert(v@ =~= seq!['-', self.variable]);
            }
            v
        } else {
            let mut v: Vec<char> = if self.coefficient < 0 {
                let mut v: Vec<char> = Vec::new();
                v.push('-');
                let mut m = render_mag_exec(-self.coefficient);
                v.append(&mut m);
                proof {
                    assert(v@ =~= seq!['-'] + render_mag(-(self.coefficient as int)));
                }
                v
            } else {
                render_mag_exec(self.coefficient)
            };
            v.push(self.variable);
            v
        }
    }

    /// Parses one term from its characters.
    pub fn parse_chars(v: &Vec<char>) -> (r: Result<Term, SolveError>)
        ensures
            term_parse_matches(v@, r),
    {
        let scanned = match scan_chars(v) {
            Ok(p) => p,
            Err(e) => {
                return Err(e);
            },
        };
        let (buf, var) = scanned;
        proof {
            lemma_scan_var_wf(v@, v@.len() as int);
        }
        match eval_buf(&buf, var) {
            Ok(u) => Ok(Term { coefficient: u, variable: var }),
            Err(e) => Err(e),
        }
    }

    /// Parses one term, such as `"-3x"`, `"x"`, `"-"` or `"7"`.
    pub fn parse(s: &str) -> (r: Result<Term, SolveError>)
        ensures
            term_parse_matches(s@, r),
    {
        let v = str_to_chars(s);
        Term::parse_chars(&v)
    }
}

} // verus!
