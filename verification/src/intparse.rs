use vstd::prelude::*;

use crate::equation::{count_eq, lemma_count_two};
use crate::term::{digit_val, digits_val, is_alpha_char, is_digit_char, str_to_chars};

verus! {

/// What `i32` parsing of a collected buffer yields: an optional minus sign
/// followed by at least one digit, with the value in `i32` range.
pub open spec fn coef_value(s: Seq<char>) -> Option<int> {
    if s.len() == 0 {
        None
    } else if s[0] == '-' {
        if s.len() == 1 {
            None
        } else {
            let v = digits_val(s.skip(1));
            if v <= 2147483648 {
                Some(-v)
            } else {
                None
            }
        }
    } else {
        let v = digits_val(s);
        if v <= 2147483647 {
            Some(v)
        } else {
            None
        }
    }
}

/// True when some entry of the list carries the key.
pub open spec fn lhas(l: Seq<(char, int)>, k: char) -> bool {
    exists|i: int| 0 <= i < l.len() && (#[trigger] l[i]).0 == k
}

/// The index of the entry carrying `k`; meaningful only under `lhas`.
pub open spec fn lidx(l: Seq<(char, int)>, k: char) -> int {
    choose|i: int| 0 <= i < l.len() && (#[trigger] l[i]).0 == k
}

/// The value stored under `k`, or zero when the key is absent.
pub open spec fn lget(l: Seq<(char, int)>, k: char) -> int {
    if lhas(l, k) {
        l[lidx(l, k)].1
    } else {
        0
    }
}

pub open spec fn lkeys_distinct(l: Seq<(char, int)>) -> bool {
    forall|i: int, j: int| 0 <= i < j < l.len() ==> (#[trigger] l[i]).0 != (#[trigger] l[j]).0
}

/// Under distinct keys, the entry at any index is the one `lget` reads.
pub proof fn lemma_lat(l: Seq<(char, int)>, i: int)
    requires
        lkeys_distinct(l),
        0 <= i < l.len(),
    ensures
        lhas(l, l[i].0),
        lidx(l, l[i].0) == i,
        lget(l, l[i].0) == l[i].1,
{
    let k = l[i].0;
    assert(lhas(l, k));
    let j = lidx(l, k);
    assert(0 <= j < l.len() && l[j].0 == k);
    if i != j {
        assert(false);
    }
}

/// Adds `v` into the entry for `k`, appending a new entry when absent; the
/// flag is false when the plain `i32` addition would overflow.
pub open spec fn bump(l: Seq<(char, int)>, k: char, v: int) -> (Seq<(char, int)>, bool) {
    if lhas(l, k) {
        let s = lget(l, k) + v;
        if -2147483648 <= s <= 2147483647 {
            (l.update(lidx(l, k), (k, s)), true)
        } else {
            (l, false)
        }
    } else {
        (l.push((k, v)), true)
    }
}

/// The state of the whole-line scanner: the entries collected so far, the
/// pending numeric buffer, and whether every unchecked step so far was
/// safe.
pub struct IParse {
    pub list: Seq<(char, int)>,
    pub coef: Seq<char>,
    pub ok: bool,
}

pub open spec fn ip_init() -> IParse {
    IParse { list: Seq::empty(), coef: Seq::empty(), ok: true }
}

/// Parses the pending buffer as an `i32` and adds it to the constant
/// entry `'_'`; not ok when the buffer is no `i32` or the addition
/// overflows.
pub open spec fn ip_flush_const(st: IParse) -> IParse {
    match coef_value(st.coef) {
        None => IParse { ok: false, ..st },
        Some(v) => {
            let r = bump(st.list, '_', v);
            if r.1 {
                IParse { list: r.0, ..st }
            } else {
                IParse { ok: false, ..st }
            }
        },
    }
}

/// One character of the scanner: digits extend the buffer, a letter
/// flushes the buffer (or `1` when it is no `i32`) into that variable's
/// entry, a sign flushes any pending buffer into the constant entry and
/// starts a new buffer, anything else is skipped.
pub open spec fn ip_step(st: IParse, c: char) -> IParse {
    if !st.ok {
        st
    } else if is_digit_char(c) {
        IParse { coef: st.coef.push(c), ..st }
    } else if is_alpha_char(c) {
        let v = match coef_value(st.coef) {
            Some(v) => v,
            None => 1int,
        };
        let r = bump(st.list, c, v);
        if r.1 {
            IParse { list: r.0, coef: Seq::empty(), ok: true }
        } else {
            IParse { ok: false, ..st }
        }
    } else if c == '-' {
        if st.coef.len() == 0 {
            IParse { coef: seq!['-'], ..st }
        } else {
            let f = ip_flush_const(st);
            if f.ok {
                IParse { coef: seq!['-'], ..f }
            } else {
                f
            }
        }
    } else if c == '+' {
        if st.coef.len() == 0 {
            st
        } else {
            let f = ip_flush_const(st);
            if f.ok {
                IParse { coef: Seq::empty(), ..f }
            } else {
                f
            }
        }
    } else {
        st
    }
}

/// The scanner state after the first `n` characters of `s`.
pub open spec fn ip_scan(s: Seq<char>, n: int) -> IParse
    decreases n,
{
    if n <= 0 {
        ip_init()
    } else {
        ip_step(ip_scan(s, n - 1), s[n - 1])
    }
}

/// The state after the whole line, with the final buffer flushed.
pub open spec fn ip_final(s: Seq<char>) -> IParse {
    let st = ip_scan(s, s.len() as int);
    if st.ok && st.coef.len() > 0 {
        ip_flush_const(st)
    } else {
        st
    }
}

/// True when scanning `s` never needs an unchecked step: every flushed
/// constant buffer is a valid `i32` and no addition overflows.
pub open spec fn parse_ok(s: Seq<char>) -> bool {
    ip_final(s).ok
}

/// The entries that scanning `s` collects, in first-appearance order.
pub open spec fn parse_spec(s: Seq<char>) -> Seq<(char, int)> {
    ip_final(s).list
}

/// Once the scanner is not ok, the rest of the input is ignored.
proof fn lemma_ip_frozen(s: Seq<char>, n: int, k: int)
    requires
        0 <= n <= k,
        !ip_scan(s, n).ok,
    ensures
        ip_scan(s, k) == ip_scan(s, n),
    decreases k,
{
    if k > n {
        lemma_ip_frozen(s, n, k - 1);
    }
}

/// The buffer always holds an optional leading minus sign and digits.
pub open spec fn coef_shape(s: Seq<char>) -> bool {
    forall|i: int|
        0 <= i < s.len() ==> (is_digit_char(#[trigger] s[i]) || (i == 0 && s[i] == '-'))
}

proof fn lemma_ip_shape(s: Seq<char>, n: int)
    ensures
        coef_shape(ip_scan(s, n).coef),
        lkeys_distinct(ip_scan(s, n).list),
    decreases n,
{
    if n > 0 {
        lemma_ip_shape(s, n - 1);
        let st = ip_scan(s, n - 1);
        let c = s[n - 1];
        let st2 = ip_scan(s, n);
        if st.ok && is_digit_char(c) {
            assert forall|i: int| 0 <= i < st2.coef.len() implies (is_digit_char(
                #[trigger] st2.coef[i],
            ) || (i == 0 && st2.coef[i] == '-')) by {
                if i < st.coef.len() {
                    assert(st2.coef[i] == st.coef[i]);
                }
            }
        }
        lemma_ip_distinct_step(st, c);
    }
}

/// One step of the scanner keeps the keys of the list distinct.
proof fn lemma_ip_distinct_step(st: IParse, c: char)
    requires
        lkeys_distinct(st.list),
    ensures
        lkeys_distinct(ip_step(st, c).list),
{
    let l = st.list;
    lemma_bump_distinct(l, '_');
    if st.ok && !is_digit_char(c) && is_alpha_char(c) {
        lemma_bump_distinct(l, c);
    }
}

/// `bump` keeps the keys of a list distinct for any added value.
proof fn lemma_bump_distinct(l: Seq<(char, int)>, k: char)
    requires
        lkeys_distinct(l),
    ensures
        forall|v: int| lkeys_distinct(#[trigger] bump(l, k, v).0),
{
    assert forall|v: int| lkeys_distinct(#[trigger] bump(l, k, v).0) by {
        let l2 = bump(l, k, v).0;
        if lhas(l, k) {
            let s = lget(l, k) + v;
            if -2147483648 <= s <= 2147483647 {
                let i = lidx(l, k);
                assert(0 <= i < l.len() && l[i].0 == k);
                assert forall|a: int, b: int| 0 <= a < b < l2.len() implies (#[trigger]
                l2[a]).0 != (#[trigger] l2[b]).0 by {
                    assert(l2[a].0 == l[a].0 && l2[b].0 == l[b].0);
                }
            }
        } else {
            assert forall|a: int, b: int| 0 <= a < b < l2.len() implies (#[trigger] l2[a]).0 != (
            #[trigger] l2[b]).0 by {
                if b == l.len() {
                    assert(l2[a].0 == l[a].0 && l2[b].0 == k);
                    if l[a].0 == k {
                        assert(lhas(l, k));
                    }
                }
            }
        }
    }
}

/// The exact list of the spec, with each value narrowed to `i32`.
pub open spec fn list_matches(ev: Seq<(char, i32)>, sv: Seq<(char, int)>) -> bool {
    &&& ev.len() == sv.len()
    &&& forall|i: int|
        0 <= i < ev.len() ==> (#[trigger] ev[i]).0 == sv[i].0 && ev[i].1 as int == sv[i].1
}

/// Parses the collected buffer the way `str::parse::<i32>` does.
fn parse_coef(v: &Vec<char>) -> (r: Option<i32>)
    requires
        coef_shape(v@),
    ensures
        match (r, coef_value(v@)) {
            (Some(x), Some(y)) => x as int == y,
            (None, None) => true,
            _ => false,
        },
{
    if v.len() == 0 {
        return None;
    }
    let neg = v[0] == '-';
    let start: usize = if neg {
        1
    } else {
        0
    };
    if neg && v.len() == 1 {
        return None;
    }
    let ghost digits = v@.skip(start as int);
    let mut acc: i64 = 0;
    let mut i: usize = start;
    while i < v.len()
        invariant
            start <= i <= v@.len(),
            start <= 1,
            v@.len() > 0,
            coef_shape(v@),
            neg == (v@[0] == '-'),
            neg ==> start == 1,
            !neg ==> start == 0,
            digits == v@.skip(start as int),
            0 <= digits_val(v@.subrange(start as int, i as int)),
            digits_val(v@.subrange(start as int, i as int)) <= 2147483648 ==> acc as int
                == digits_val(v@.subrange(start as int, i as int)),
            digits_val(v@.subrange(start as int, i as int)) > 2147483648 ==> acc
                > 2147483648,
            acc <= 30000000000,
        decreases v@.len() - i,
    {
        let c = v[i];
        assert(is_digit_char(v@[i as int]) || (i == 0 && v@[i as int] == '-'));
        assert(is_digit_char(c));
        let d = ((c as u32) - 48) as i64;
        proof {
            let pre = v@.subrange(start as int, i as int);
            let post = v@.subrange(start as int, i + 1);
            assert(post.drop_last() =~= pre);
            assert(post.last() == v@[i as int]);
            assert(digits_val(post) == digits_val(pre) * 10 + digit_val(v@[i as int]));
            assert(digits_val(pre) * 10 >= digits_val(pre)) by (nonlinear_arith)
                requires
                    digits_val(pre) >= 0,
            ;
        }
        if acc <= 2147483648 {
            acc = acc * 10 + d;
        }
        i += 1;
    }
    proof {
        assert(v@.subrange(start as int, v@.len() as int) =~= digits);
        if !neg {
            assert(digits =~= v@);
        }
    }
    if neg {
        if acc <= 2147483648 {
            Some((-acc) as i32)
        } else {
            None
        }
    } else {
        if acc <= 2147483647 {
            Some(acc as i32)
        } else {
            None
        }
    }
}

/// Merges `v` into the entry for `k` of the working list, mirroring one
/// `bump` of the scanner; the caller guarantees that the addition is safe.
fn bump_exec(list: &mut Vec<(char, i32)>, k: char, v: i32, Ghost(sl): Ghost<Seq<(char, int)>>)
    requires
        list_matches(old(list)@, sl),
        lkeys_distinct(sl),
        bump(sl, k, v as int).1,
    ensures
        list_matches(final(list)@, bump(sl, k, v as int).0),
{
    let mut i: usize = 0;
    while i < list.len()
        invariant
            i <= list@.len(),
            list_matches(list@, sl),
            lkeys_distinct(sl),
            bump(sl, k, v as int).1,
            forall|j: int| 0 <= j < i ==> (#[trigger] list@[j]).0 != k,
        decreases list@.len() - i,
    {
        if list[i].0 == k {
            proof {
                lemma_lat(sl, i as int);
                assert(lhas(sl, k));
                assert(lget(sl, k) == sl[i as int].1);
                assert(-2147483648 <= lget(sl, k) + v as int <= 2147483647);
            }
            let s = list[i].1 + v;
            list[i] = (k, s);
            proof {
                assert(list_matches(list@, sl.update(lidx(sl, k), (k, lget(sl, k) + v as int))));
            }
            return ;
        }
        i += 1;
    }
    proof {
        if lhas(sl, k) {
            let j = lidx(sl, k);
            assert(0 <= j < sl.len() && sl[j].0 == k);
            assert(list@[j].0 == k);
            assert(false);
        }
    }
    list.push((k, v));
}

/// Scans one side of an equation into integer coefficients keyed by
/// variable, with the constant under `'_'`; the caller rules out the
/// inputs on which a flushed buffer is no `i32` or an addition overflows.
pub fn parse(equation: &str) -> (r: Vec<(char, i32)>)
    requires
        parse_ok(equation@),
    ensures
        list_matches(r@, parse_spec(equation@)),
        lkeys_distinct(parse_spec(equation@)),
{
    let v = str_to_chars(equation);
    let mut list: Vec<(char, i32)> = Vec::new();
    let mut coef: Vec<char> = Vec::new();
    let mut i: usize = 0;
    while i < v.len()
        invariant
            i <= v@.len(),
            v@ == equation@,
            parse_ok(equation@),
            ({
                let st = ip_scan(v@, i as int);
                st.ok && coef@ == st.coef && list_matches(list@, st.list)
            }),
        decreases v@.len() - i,
    {
        let ghost st = ip_scan(v@, i as int);
        proof {
            assert(ip_scan(v@, i + 1) == ip_step(st, v@[i as int]));
            if !ip_scan(v@, i + 1).ok {
                lemma_ip_frozen(v@, i + 1, v@.len() as int);
                assert(!parse_ok(equation@));
            }
            lemma_ip_shape(v@, i as int);
        }
        let c = v[i];
        let cu = c as u32;
        if 48 <= cu && cu <= 57 {
            coef.push(c);
        } else if (65 <= cu && cu <= 90) || (97 <= cu && cu <= 122) {
            let val = match parse_coef(&coef) {
                Some(x) => x,
                None => 1,
            };
            bump_exec(&mut list, c, val, Ghost(st.list));
            coef = Vec::new();
        } else if c == '-' {
            if coef.len() == 0 {
                coef = Vec::new();
                coef.push(c);
            } else {
                let val = match parse_coef(&coef) {
                    Some(x) => x,
                    None => {
                        proof {
                            assert(!ip_scan(v@, i + 1).ok);
                        }
                        1
                    },
                };
                bump_exec(&mut list, '_', val, Ghost(st.list));
                coef = Vec::new();
                coef.push(c);
            }
        } else if c == '+' {
            if coef.len() == 0 {
            } else {
                let val = match parse_coef(&coef) {
                    Some(x) => x,
                    None => {
                        proof {
                            assert(!ip_scan(v@, i + 1).ok);
                        }
                        1
                    },
                };
                bump_exec(&mut list, '_', val, Ghost(st.list));
                coef = Vec::new();
            }
        }
        proof {
            assert(coef@ =~= ip_scan(v@, i + 1).coef);
        }
        i += 1;
    }
    let ghost st = ip_scan(v@, v@.len() as int);
    proof {
        lemma_ip_shape(v@, v@.len() as int);
    }
    if coef.len() > 0 {
        let val = match parse_coef(&coef) {
            Some(x) => x,
            None => {
                proof {
                    assert(!ip_final(v@).ok);
                }
                1
            },
        };
        bump_exec(&mut list, '_', val, Ghost(st.list));
    }
    proof {
        lemma_ip_final_distinct(v@);
    }
    list
}

/// One entry of the right-hand side merged into the combined list: the
/// stored value minus the entry's value, or the negated value for a fresh
/// key; false where the subtraction or negation would overflow `i32`.
pub open spec fn cstep(l: Seq<(char, int)>, k: char, v: int) -> (Seq<(char, int)>, bool) {
    if lhas(l, k) {
        let s = lget(l, k) - v;
        if -2147483648 <= s <= 2147483647 {
            (l.update(lidx(l, k), (k, s)), true)
        } else {
            (l, false)
        }
    } else {
        if -2147483648 < v {
            (l.push((k, -v)), true)
        } else {
            (l, false)
        }
    }
}

/// The left-hand entries with the first `n` right-hand entries subtracted.
pub open spec fn combine(l: Seq<(char, int)>, r: Seq<(char, int)>, n: int) -> (
    Seq<(char, int)>,
    bool,
)
    decreases n,
{
    if n <= 0 {
        (l, true)
    } else {
        let p = combine(l, r, n - 1);
        if !p.1 {
            p
        } else {
            cstep(p.0, r[n - 1].0, r[n - 1].1)
        }
    }
}

/// `cstep` keeps the keys of the list distinct.
proof fn lemma_cstep_distinct(l: Seq<(char, int)>, k: char, v: int)
    requires
        lkeys_distinct(l),
    ensures
        lkeys_distinct(cstep(l, k, v).0),
{
    let l2 = cstep(l, k, v).0;
    if lhas(l, k) {
        let i = lidx(l, k);
        assert(0 <= i < l.len() && l[i].0 == k);
        assert forall|a: int, b: int| 0 <= a < b < l2.len() implies (#[trigger] l2[a]).0 != (
        #[trigger] l2[b]).0 by {
            assert(l2[a].0 == l[a].0 && l2[b].0 == l[b].0);
        }
    } else {
        assert forall|a: int, b: int| 0 <= a < b < l2.len() implies (#[trigger] l2[a]).0 != (
        #[trigger] l2[b]).0 by {
            if b == l.len() {
                assert(l2[a].0 == l[a].0 && l2[b].0 == k);
                if l[a].0 == k {
                    assert(lhas(l, k));
                }
            }
        }
    }
}

proof fn lemma_combine_distinct(l: Seq<(char, int)>, r: Seq<(char, int)>, n: int)
    requires
        lkeys_distinct(l),
    ensures
        lkeys_distinct(combine(l, r, n).0),
    decreases n,
{
    if n > 0 {
        lemma_combine_distinct(l, r, n - 1);
        let p = combine(l, r, n - 1);
        if p.1 {
            lemma_cstep_distinct(p.0, r[n - 1].0, r[n - 1].1);
        }
    }
}

/// Once a combine step has failed, the rest is ignored.
proof fn lemma_combine_frozen(l: Seq<(char, int)>, r: Seq<(char, int)>, n: int, k: int)
    requires
        0 <= n <= k,
        !combine(l, r, n).1,
    ensures
        combine(l, r, k) == combine(l, r, n),
    decreases k,
{
    if k > n {
        lemma_combine_frozen(l, r, n, k - 1);
    }
}

/// Applies one `cstep` to the working list.
fn cstep_exec(list: &mut Vec<(char, i32)>, k: char, v: i32, Ghost(sl): Ghost<Seq<(char, int)>>)
    requires
        list_matches(old(list)@, sl),
        lkeys_distinct(sl),
        cstep(sl, k, v as int).1,
    ensures
        list_matches(final(list)@, cstep(sl, k, v as int).0),
{
    let mut i: usize = 0;
    while i < list.len()
        invariant
            i <= list@.len(),
            list_matches(list@, sl),
            lkeys_distinct(sl),
            cstep(sl, k, v as int).1,
            forall|j: int| 0 <= j < i ==> (#[trigger] list@[j]).0 != k,
        decreases list@.len() - i,
    {
        if list[i].0 == k {
            proof {
                lemma_lat(sl, i as int);
                assert(lhas(sl, k));
                assert(lget(sl, k) == sl[i as int].1);
                assert(-2147483648 <= lget(sl, k) - v as int <= 2147483647);
            }
            let s = list[i].1 - v;
            list[i] = (k, s);
            proof {
                assert(list_matches(list@, sl.update(lidx(sl, k), (k, lget(sl, k) - v as int))));
            }
            return ;
        }
        i += 1;
    }
    proof {
        if lhas(sl, k) {
            let j = lidx(sl, k);
            assert(0 <= j < sl.len() && sl[j].0 == k);
            assert(list@[j].0 == k);
            assert(false);
        }
        assert(-2147483648 < v as int);
    }
    list.push((k, -v));
}

/// True when `s` splits at exactly one `=`.
pub open spec fn split_ok(s: Seq<char>) -> bool {
    count_eq(s, s.len() as int) == 1
}

/// The position of the unique `=`; meaningful only under `split_ok`.
pub open spec fn eq_pos(s: Seq<char>) -> int {
    choose|i: int| 0 <= i < s.len() && s[i] == '='
}

/// Neither side's scan nor the final subtraction needs an unchecked step.
pub open spec fn peq_sides_ok(s: Seq<char>) -> bool {
    split_ok(s) ==> {
        let ls = s.take(eq_pos(s));
        let rs = s.skip(eq_pos(s) + 1);
        &&& parse_ok(ls)
        &&& parse_ok(rs)
        &&& combine(parse_spec(ls), parse_spec(rs), parse_spec(rs).len() as int).1
    }
}

/// The combined coefficients of one whole equation: the left side with the
/// right side subtracted.
pub open spec fn peq_spec(s: Seq<char>) -> Seq<(char, int)> {
    let ls = s.take(eq_pos(s));
    let rs = s.skip(eq_pos(s) + 1);
    combine(parse_spec(ls), parse_spec(rs), parse_spec(rs).len() as int).0
}

/// Splits one equation at its `=` and folds both sides into a single
/// list of integer coefficients (right side subtracted from the left);
/// the caller rules out the inputs whose arithmetic would overflow `i32`.
pub fn parse_equation(equation: &str) -> (r: Result<Vec<(char, i32)>, &'static str>)
    requires
        peq_sides_ok(equation@),
    ensures
        match r {
            Ok(m) => {
                &&& split_ok(equation@)
                &&& list_matches(m@, peq_spec(equation@))
                &&& lkeys_distinct(peq_spec(equation@))
            },
            Err(e) => !split_ok(equation@) && e@ == "Invalid equation"@,
        },
{
    let n = equation.unicode_len();
    let mut count: usize = 0;
    let mut first: usize = 0;
    let mut found = false;
    let mut i: usize = 0;
    while i < n
        invariant
            i <= n,
            n == equation@.len(),
            count <= i,
            count == count_eq(equation@, i as int),
            found ==> first < i && equation@[first as int] == '=',
            !found ==> count == 0,
            count > 0 ==> found,
        decreases n - i,
    {
        if equation.get_char(i) == '=' {
            count += 1;
            if !found {
                found = true;
                first = i;
            }
        }
        i += 1;
    }
    if count != 1 {
        return Err("Invalid equation");
    }
    proof {
        let s = equation@;
        let ci = eq_pos(s);
        assert(0 <= first < s.len() && s[first as int] == '=');
        assert(0 <= ci < s.len() && s[ci] == '=');
        if ci < first as int {
            lemma_count_two(s, ci, first as int, s.len() as int);
        } else if ci > first as int {
            lemma_count_two(s, first as int, ci, s.len() as int);
        }
    }
    let lhs_str = equation.substring_char(0, first);
    let rhs_str = equation.substring_char(first + 1, n);
    proof {
        assert(lhs_str@ =~= equation@.take(first as int));
        assert(rhs_str@ =~= equation@.skip(first + 1));
    }
    let mut out = parse(lhs_str);
    let rm = parse(rhs_str);
    let ghost ls = parse_spec(lhs_str@);
    let ghost rs = parse_spec(rhs_str@);
    proof {
        lemma_ip_final_distinct(lhs_str@);
    }
    let mut j: usize = 0;
    while j < rm.len()
        invariant
            j <= rm@.len(),
            list_matches(rm@, rs),
            lkeys_distinct(ls),
            combine(ls, rs, rs.len() as int).1,
            rs.len() == rm@.len(),
            combine(ls, rs, j as int).1,
            list_matches(out@, combine(ls, rs, j as int).0),
        decreases rm@.len() - j,
    {
        let e = rm[j];
        let ghost cur = combine(ls, rs, j as int).0;
        proof {
            lemma_combine_distinct(ls, rs, j as int);
            if !combine(ls, rs, j + 1).1 {
                lemma_combine_frozen(ls, rs, j + 1, rs.len() as int);
                assert(false);
            }
            assert(rm@[j as int].0 == rs[j as int].0 && rm@[j as int].1 as int == rs[j as int].1);
        }
        cstep_exec(&mut out, e.0, e.1, Ghost(cur));
        j += 1;
    }
    proof {
        lemma_combine_distinct(ls, rs, rs.len() as int);
    }
    Ok(out)
}

/// Appends every variable key of the list that is not yet collected.
fn collect_keys(vars: &mut Vec<char>, list: &Vec<(char, i32)>, Ghost(sl): Ghost<Seq<(char, int)>>)
    requires
        crate::linear_system::distinct_chars(old(vars)@),
        list_matches(list@, sl),
    ensures
        crate::linear_system::distinct_chars(final(vars)@),
        forall|c: char|
            #[trigger] final(vars)@.contains(c) == (old(vars)@.contains(c) || (c != '_' && lhas(
                sl,
                c,
            ))),
{
    let ghost v0 = vars@;
    let mut j: usize = 0;
    while j < list.len()
        invariant
            j <= list@.len(),
            list_matches(list@, sl),
            crate::linear_system::distinct_chars(vars@),
            forall|c: char|
                #[trigger] vars@.contains(c) == (v0.contains(c) || (c != '_' && exists|q: int|
                    0 <= q < j && (#[trigger] sl[q]).0 == c)),
        decreases list@.len() - j,
    {
        let e = list[j];
        proof {
            assert(e.0 == sl[j as int].0);
        }
        if e.0 != '_' {
            if !crate::linear_system::contains_char(vars, e.0) {
                proof {
                    crate::linear_system::lemma_push_contains_char(vars@, e.0);
                    assert forall|a: int, b: int|
                        #![trigger vars@.push(e.0)[a], vars@.push(e.0)[b]]
                        0 <= a < b < vars@.push(e.0).len() implies vars@.push(e.0)[a] != vars@.push(
                        e.0,
                    )[b] by {
                        if b == vars@.len() {
                            if vars@[a] == e.0 {
                                assert(vars@.contains(e.0));
                            }
                        }
                    }
                }
                vars.push(e.0);
            }
        }
        proof {
            assert forall|c: char|
                #[trigger] vars@.contains(c) == (v0.contains(c) || (c != '_' && exists|q: int|
                    0 <= q < j + 1 && (#[trigger] sl[q]).0 == c)) by {
                if vars@.contains(c) && !v0.contains(c) && c != '_' {
                    if c == e.0 {
                        assert(0 <= j < j + 1 && sl[j as int].0 == c);
                    } else {
                        let q = choose|q: int| 0 <= q < j && (#[trigger] sl[q]).0 == c;
                        assert(0 <= q < j + 1 && sl[q].0 == c);
                    }
                }
                if c != '_' && exists|q: int| 0 <= q < j + 1 && (#[trigger] sl[q]).0 == c {
                    let q = choose|q: int| 0 <= q < j + 1 && (#[trigger] sl[q]).0 == c;
                    if q < j {
                        assert(exists|q2: int| 0 <= q2 < j && (#[trigger] sl[q2]).0 == c);
                    } else {
                        assert(c == e.0);
                    }
                }
            }
        }
        j += 1;
    }
    proof {
        assert forall|c: char|
            #[trigger] vars@.contains(c) == (v0.contains(c) || (c != '_' && lhas(sl, c))) by {
            if c != '_' && lhas(sl, c) {
                let q = lidx(sl, c);
                assert(0 <= q < list@.len() && sl[q].0 == c);
            }
        }
    }
}

/// The value the list stores under `k`, or zero when absent.
fn lookup(list: &Vec<(char, i32)>, k: char, Ghost(sl): Ghost<Seq<(char, int)>>) -> (r: i32)
    requires
        list_matches(list@, sl),
        lkeys_distinct(sl),
    ensures
        r as int == lget(sl, k),
{
    let mut i: usize = 0;
    while i < list.len()
        invariant
            i <= list@.len(),
            list_matches(list@, sl),
            lkeys_distinct(sl),
            forall|j: int| 0 <= j < i ==> (#[trigger] list@[j]).0 != k,
        decreases list@.len() - i,
    {
        if list[i].0 == k {
            proof {
                lemma_lat(sl, i as int);
            }
            return list[i].1;
        }
        i += 1;
    }
    proof {
        if lhas(sl, k) {
            let j = lidx(sl, k);
            assert(0 <= j < sl.len() && sl[j].0 == k);
            assert(list@[j].0 == k);
            assert(false);
        }
    }
    0
}

/// Builds the integer coefficient rows and constant column of a whole
/// system, one row per equation and one column per variable in sorted
/// order; the constant of each equation is negated onto the right-hand
/// side.  The caller rules out a missing constant entry and any input
/// whose arithmetic would overflow `i32`.
pub fn solve(equations: Vec<&str>) -> (r: (Vec<Vec<i32>>, Vec<i32>))
    requires
        forall|i: int|
            0 <= i < equations@.len() ==> {
                &&& split_ok((#[trigger] equations@[i])@)
                &&& peq_sides_ok(equations@[i]@)
                &&& lhas(peq_spec(equations@[i]@), '_')
                &&& lget(peq_spec(equations@[i]@), '_') != -2147483648
            },
    ensures
        ({
            let lines = equations@;
            exists|vars: Seq<char>|
                #![trigger vars.len()]
                {
                    &&& crate::linear_system::sorted_chars(vars)
                    &&& crate::linear_system::distinct_chars(vars)
                    &&& forall|c: char|
                        #[trigger] vars.contains(c) == (c != '_' && exists|k: int|
                            0 <= k < lines.len() && lhas(peq_spec((#[trigger] lines[k])@), c))
                    &&& r.0@.len() == lines.len()
                    &&& r.1@.len() == lines.len()
                    &&& forall|i: int|
                        0 <= i < lines.len() ==> (#[trigger] r.0@[i])@.len() == vars.len()
                    &&& forall|i: int, j: int|
                        #![trigger r.0@[i]@[j]]
                        0 <= i < lines.len() && 0 <= j < vars.len() ==> r.0@[i]@[j] as int == lget(
                            peq_spec(lines[i]@),
                            vars[j],
                        )
                    &&& forall|i: int|
                        0 <= i < lines.len() ==> (#[trigger] r.1@[i]) as int == -lget(
                            peq_spec(lines[i]@),
                            '_',
                        )
                }
        }),
{
    let ghost lines = equations@;
    let mut maps: Vec<Vec<(char, i32)>> = Vec::new();
    let mut i: usize = 0;
    while i < equations.len()
        invariant
            i <= lines.len(),
            lines == equations@,
            forall|k: int|
                0 <= k < lines.len() ==> {
                    &&& split_ok((#[trigger] lines[k])@)
                    &&& peq_sides_ok(lines[k]@)
                    &&& lhas(peq_spec(lines[k]@), '_')
                    &&& lget(peq_spec(lines[k]@), '_') != -2147483648
                },
            maps@.len() == i,
            forall|k: int|
                0 <= k < i ==> list_matches(
                    (#[trigger] maps@[k])@,
                    peq_spec(lines[k]@),
                ) && lkeys_distinct(peq_spec(lines[k]@)),
        decreases lines.len() - i,
    {
        let m = match parse_equation(equations[i]) {
            Ok(m) => m,
            Err(_) => {
                proof {
                    assert(false);
                }
                Vec::new()
            },
        };
        maps.push(m);
        i += 1;
    }
    let mut vars: Vec<char> = Vec::new();
    let mut i: usize = 0;
    while i < maps.len()
        invariant
            i <= maps@.len(),
            maps@.len() == lines.len(),
            lines == equations@,
            forall|k: int|
                0 <= k < lines.len() ==> list_matches(
                    (#[trigger] maps@[k])@,
                    peq_spec(lines[k]@),
                ) && lkeys_distinct(peq_spec(lines[k]@)),
            crate::linear_system::distinct_chars(vars@),
            forall|c: char|
                #[trigger] vars@.contains(c) == (c != '_' && exists|k: int|
                    0 <= k < i && lhas(peq_spec((#[trigger] lines[k])@), c)),
        decreases maps@.len() - i,
    {
        let ghost vpre = vars@;
        let m = &maps[i];
        collect_keys(&mut vars, m, Ghost(peq_spec(lines[i as int]@)));
        proof {
            assert forall|c: char|
                #[trigger] vars@.contains(c) == (c != '_' && exists|k: int|
                    0 <= k < i + 1 && lhas(peq_spec((#[trigger] lines[k])@), c)) by {
                if vars@.contains(c) {
                    if vpre.contains(c) {
                        let k = choose|k: int|
                            0 <= k < i && lhas(peq_spec((#[trigger] lines[k])@), c);
                        assert(0 <= k < i + 1 && lhas(peq_spec(lines[k]@), c));
                    } else {
                        assert(0 <= i < i + 1 && lhas(peq_spec(lines[i as int]@), c));
                    }
                }
                if c != '_' && exists|k: int|
                    0 <= k < i + 1 && lhas(peq_spec((#[trigger] lines[k])@), c) {
                    let k = choose|k: int|
                        0 <= k < i + 1 && lhas(peq_spec((#[trigger] lines[k])@), c);
                    if k < i {
                        assert(exists|k2: int|
                            0 <= k2 < i && lhas(peq_spec((#[trigger] lines[k2])@), c));
                    }
                }
            }
        }
        i += 1;
    }
    crate::linear_system::sort_chars(&mut vars);
    let mut coefficients: Vec<Vec<i32>> = Vec::new();
    let mut values: Vec<i32> = Vec::new();
    let mut i: usize = 0;
    while i < maps.len()
        invariant
            i <= maps@.len(),
            maps@.len() == lines.len(),
            lines == equations@,
            forall|k: int|
                0 <= k < lines.len() ==> {
                    &&& lhas(peq_spec((#[trigger] lines[k])@), '_')
                    &&& lget(peq_spec(lines[k]@), '_') != -2147483648
                },
            forall|k: int|
                0 <= k < lines.len() ==> list_matches(
                    (#[trigger] maps@[k])@,
                    peq_spec(lines[k]@),
                ) && lkeys_distinct(peq_spec(lines[k]@)),
            coefficients@.len() == i,
            values@.len() == i,
            forall|k: int| 0 <= k < i ==> (#[trigger] coefficients@[k])@.len() == vars@.len(),
            forall|k: int, j: int|
                #![trigger coefficients@[k]@[j]]
                0 <= k < i && 0 <= j < vars@.len() ==> coefficients@[k]@[j] as int == lget(
                    peq_spec(lines[k]@),
                    vars@[j],
                ),
            forall|k: int|
                0 <= k < i ==> (#[trigger] values@[k]) as int == -lget(peq_spec(lines[k]@), '_'),
        decreases maps@.len() - i,
    {
        let m = &maps[i];
        let mut row: Vec<i32> = Vec::new();
        let mut j: usize = 0;
        while j < vars.len()
            invariant
                j <= vars@.len(),
                i < maps@.len(),
                maps@.len() == lines.len(),
                lines == equations@,
                list_matches((maps@[i as int])@, peq_spec(lines[i as int]@)),
                lkeys_distinct(peq_spec(lines[i as int]@)),
                m == &maps[i as int],
                row@.len() == j,
                forall|q: int|
                    0 <= q < j ==> (#[trigger] row@[q]) as int == lget(
                        peq_spec(lines[i as int]@),
                        vars@[q],
                    ),
            decreases vars@.len() - j,
        {
            let c = vars[j];
            row.push(lookup(m, c, Ghost(peq_spec(lines[i as int]@))));
            j += 1;
        }
        coefficients.push(row);
        let v = lookup(m, '_', Ghost(peq_spec(lines[i as int]@)));
        values.push(-v);
        i += 1;
    }
    (coefficients, values)
}

/// The final list of a scan keeps its keys distinct.
proof fn lemma_ip_final_distinct(s: Seq<char>)
    ensures
        lkeys_distinct(parse_spec(s)),
{
    lemma_ip_shape(s, s.len() as int);
    let st = ip_scan(s, s.len() as int);
    if st.ok && st.coef.len() > 0 {
        match coef_value(st.coef) {
            None => {},
            Some(v) => {
                lemma_bump_distinct(st.list, '_');
            },
        }
    }
}

} // verus!
