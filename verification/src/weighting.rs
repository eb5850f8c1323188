//! A verified evaluator for weighting expressions.
//!
//! A weighting is an arithmetic expression over the objective names of a
//! score map, such as `foo + 2 * bar`. The grammar is: sums and differences
//! of terms; terms are products and quotients of atoms; an atom is a decimal
//! literal (at most twelve integer digits and six fraction digits) or an
//! objective name (letters, digits and underscores, not starting with a
//! digit); spaces may appear around atoms and operators. Arithmetic uses the
//! fixed-point score operations. Evaluation fails (returns nothing) on a
//! malformed expression, an unknown objective name, or division by zero.

use vstd::prelude::*;
use vstd::string::StrSliceExecFns;

use crate::fixed::{fp_div_spec, fp_mul_spec, sat_add, add_score, mul_score, div_score, SCALE};
use crate::score_map::{spec_get, ScoreMap};

verus! {

/// Ten to the `n`-th power.
pub open spec fn pow10(n: nat) -> int
    decreases n,
{
    if n == 0 {
        1
    } else {
        10 * pow10((n - 1) as nat)
    }
}

/// Whether `c` is a decimal digit.
pub open spec fn is_digit(c: char) -> bool {
    48 <= c as int <= 57
}

/// Whether `c` may start an objective name.
pub open spec fn is_ident_start(c: char) -> bool {
    (97 <= c as int <= 122) || (65 <= c as int <= 90) || c as int == 95
}

/// Whether `c` may continue an objective name.
pub open spec fn is_ident_char(c: char) -> bool {
    is_ident_start(c) || is_digit(c)
}

/// The numeric value of a digit character.
pub open spec fn digit_val(c: char) -> int {
    c as int - 48
}

/// The position of the first non-space character at or after `pos`.
pub open spec fn sp(s: Seq<char>, pos: int) -> int
    decreases s.len() - pos,
{
    if 0 <= pos < s.len() && s[pos] == ' ' {
        sp(s, pos + 1)
    } else {
        pos
    }
}

/// The position of the first non-digit character at or after `pos`.
pub open spec fn digits_end(s: Seq<char>, pos: int) -> int
    decreases s.len() - pos,
{
    if 0 <= pos < s.len() && is_digit(s[pos]) {
        digits_end(s, pos + 1)
    } else {
        pos
    }
}

/// The position of the first non-name character at or after `pos`.
pub open spec fn ident_end(s: Seq<char>, pos: int) -> int
    decreases s.len() - pos,
{
    if 0 <= pos < s.len() && is_ident_char(s[pos]) {
        ident_end(s, pos + 1)
    } else {
        pos
    }
}

/// The value of the digit run `s[from..to)`, read in base ten.
pub open spec fn digits_value(s: Seq<char>, from: int, to: int) -> int
    decreases to - from,
{
    if from >= to {
        0
    } else {
        digits_value(s, from, to - 1) * 10 + digit_val(s[to - 1])
    }
}

/// A parsed atom: a literal or a named score, with the position after it.
pub open spec fn parse_atom(s: Seq<char>, env: Seq<(Seq<char>, i64)>, pos: int) -> Option<
    (i64, int),
>
    decreases s.len() - pos,
{
    let q = sp(s, pos);
    if !(0 <= q < s.len()) {
        None
    } else if is_digit(s[q]) {
        let e1 = digits_end(s, q);
        if e1 - q > 12 {
            None
        } else {
            let ip = digits_value(s, q, e1);
            if e1 < s.len() && s[e1] == '.' {
                let e2 = digits_end(s, e1 + 1);
                let fl = e2 - (e1 + 1);
                if 1 <= fl <= 6 {
                    Some(
                        (
                            (ip * (SCALE as int) + digits_value(s, e1 + 1, e2) * pow10(
                                (6 - fl) as nat,
                            )) as i64,
                            e2,
                        ),
                    )
                } else {
                    None
                }
            } else {
                Some(((ip * (SCALE as int)) as i64, e1))
            }
        }
    } else if is_ident_start(s[q]) {
        let e = ident_end(s, q);
        match spec_get(env, s.subrange(q, e)) {
            Some(v) => Some((v, e)),
            None => None,
        }
    } else {
        None
    }
}

/// Extends a term leftward-associatively with `*` and `/` atoms.
pub open spec fn parse_term_tail(
    s: Seq<char>,
    env: Seq<(Seq<char>, i64)>,
    acc: i64,
    pos: int,
) -> Option<(i64, int)>
    decreases s.len() - pos,
{
    let q = sp(s, pos);
    if 0 <= pos <= s.len() && 0 <= q < s.len() && (s[q] == '*' || s[q] == '/') {
        match parse_atom(s, env, q + 1) {
            Some((v, p)) => if pos < p <= s.len() {
                if s[q] == '*' {
                    parse_term_tail(s, env, fp_mul_spec(acc as int, v as int) as i64, p)
                } else if v == 0 {
                    None
                } else {
                    parse_term_tail(s, env, fp_div_spec(acc as int, v as int) as i64, p)
                }
            } else {
                None
            },
            None => None,
        }
    } else {
        Some((acc, pos))
    }
}

/// A parsed term: an atom extended by `*` and `/`.
pub open spec fn parse_term(s: Seq<char>, env: Seq<(Seq<char>, i64)>, pos: int) -> Option<
    (i64, int),
> {
    match parse_atom(s, env, pos) {
        Some((v, p)) => parse_term_tail(s, env, v, p),
        None => None,
    }
}

/// Extends a sum leftward-associatively with `+` and `-` terms.
pub open spec fn parse_expr_tail(
    s: Seq<char>,
    env: Seq<(Seq<char>, i64)>,
    acc: i64,
    pos: int,
) -> Option<(i64, int)>
    decreases s.len() - pos,
{
    let q = sp(s, pos);
    if 0 <= pos <= s.len() && 0 <= q < s.len() && (s[q] == '+' || s[q] == '-') {
        match parse_term(s, env, q + 1) {
            Some((v, p)) => if pos < p <= s.len() {
                if s[q] == '+' {
                    parse_expr_tail(s, env, sat_add(acc as int, v as int) as i64, p)
                } else {
                    parse_expr_tail(s, env, sat_add(acc as int, -(v as int)) as i64, p)
                }
            } else {
                None
            },
            None => None,
        }
    } else {
        Some((acc, pos))
    }
}

/// The value of the whole expression over the named scores, if it is
/// well-formed, every name it uses is bound, and no division by zero occurs.
pub open spec fn spec_eval(s: Seq<char>, env: Seq<(Seq<char>, i64)>) -> Option<i64> {
    match parse_atom(s, env, 0) {
        Some((v, p)) => match parse_term_tail(s, env, v, p) {
            Some((v2, p2)) => match parse_expr_tail(s, env, v2, p2) {
                Some((v3, p3)) => if sp(s, p3) == s.len() {
                    Some(v3)
                } else {
                    None
                },
                None => None,
            },
            None => None,
        },
        None => None,
    }
}

proof fn lemma_sp_bounds(s: Seq<char>, pos: int)
    requires
        0 <= pos <= s.len(),
    ensures
        pos <= sp(s, pos) <= s.len(),
        sp(s, pos) < s.len() ==> s[sp(s, pos)] != ' ',
    decreases s.len() - pos,
{
    if pos < s.len() && s[pos] == ' ' {
        lemma_sp_bounds(s, pos + 1);
    }
}

proof fn lemma_digits_end_bounds(s: Seq<char>, pos: int)
    requires
        0 <= pos <= s.len(),
    ensures
        pos <= digits_end(s, pos) <= s.len(),
        forall|i: int| pos <= i < digits_end(s, pos) ==> is_digit(s[i]),
        digits_end(s, pos) < s.len() ==> !is_digit(s[digits_end(s, pos)]),
    decreases s.len() - pos,
{
    if pos < s.len() && is_digit(s[pos]) {
        lemma_digits_end_bounds(s, pos + 1);
    }
}

proof fn lemma_ident_end_bounds(s: Seq<char>, pos: int)
    requires
        0 <= pos <= s.len(),
    ensures
        pos <= ident_end(s, pos) <= s.len(),
        ident_end(s, pos) < s.len() ==> !is_ident_char(s[ident_end(s, pos)]),
    decreases s.len() - pos,
{
    if pos < s.len() && is_ident_char(s[pos]) {
        lemma_ident_end_bounds(s, pos + 1);
    }
}

/// A digit run of `n` digits is below ten to the `n`.
proof fn lemma_digits_value_bound(s: Seq<char>, from: int, to: int)
    requires
        0 <= from <= to <= s.len(),
        forall|i: int| from <= i < to ==> is_digit(#[trigger] s[i]),
    ensures
        0 <= digits_value(s, from, to) < pow10((to - from) as nat),
    decreases to - from,
{
    if from < to {
        lemma_digits_value_bound(s, from, to - 1);
        assert(is_digit(s[to - 1]));
        assert(pow10((to - from) as nat) == 10 * pow10((to - 1 - from) as nat));
    }
}

proof fn lemma_pow10_unfold()
    ensures
        pow10(0) == 1,
        pow10(1) == 10,
        pow10(2) == 100,
        pow10(3) == 1000,
        pow10(4) == 10000,
        pow10(5) == 100000,
        pow10(6) == 1000000,
        pow10(12) == 0x0000_00e8_d4a5_1000,
{
    assert(pow10(0) == 1);
    assert(pow10(1) == 10);
    assert(pow10(2) == 100);
    assert(pow10(3) == 1000);
    assert(pow10(4) == 10000);
    assert(pow10(5) == 100000);
    assert(pow10(6) == 1000000);
    assert(pow10(7) == 10000000);
    assert(pow10(8) == 100000000);
    assert(pow10(9) == 1000000000);
    assert(pow10(10) == 10000000000);
    assert(pow10(11) == 100000000000);
    assert(pow10(12) == 1000000000000);
}

/// Executable space skipping.
fn e_sp(s: &str, len: usize, pos: usize) -> (r: usize)
    requires
        len == s@.len(),
        pos <= len,
    ensures
        r == sp(s@, pos as int),
        pos <= r <= len,
    decreases len - pos,
{
    proof {
        lemma_sp_bounds(s@, pos as int);
    }
    if pos < len && s.get_char(pos) == ' ' {
        e_sp(s, len, pos + 1)
    } else {
        pos
    }
}

/// Executable digit-run scan.
fn e_digits_end(s: &str, len: usize, pos: usize) -> (r: usize)
    requires
        len == s@.len(),
        pos <= len,
    ensures
        r == digits_end(s@, pos as int),
        pos <= r <= len,
    decreases len - pos,
{
    proof {
        lemma_digits_end_bounds(s@, pos as int);
    }
    if pos < len {
        let c = s.get_char(pos) as u32;
        if 48 <= c && c <= 57 {
            return e_digits_end(s, len, pos + 1);
        }
    }
    pos
}

/// Executable name scan.
fn e_ident_end(s: &str, len: usize, pos: usize) -> (r: usize)
    requires
        len == s@.len(),
        pos <= len,
    ensures
        r == ident_end(s@, pos as int),
        pos <= r <= len,
    decreases len - pos,
{
    proof {
        lemma_ident_end_bounds(s@, pos as int);
    }
    if pos < len {
        let c = s.get_char(pos) as u32;
        if (97 <= c && c <= 122) || (65 <= c && c <= 90) || c == 95 || (48 <= c && c <= 57) {
            return e_ident_end(s, len, pos + 1);
        }
    }
    pos
}

/// Executable digit-run value; the run must be at most twelve digits.
fn e_digits_value(s: &str, len: usize, from: usize, to: usize) -> (r: i64)
    requires
        len == s@.len(),
        from <= to <= len,
        to - from <= 12,
        forall|i: int| from <= i < to ==> is_digit(#[trigger] s@[i]),
    ensures
        r == digits_value(s@, from as int, to as int),
        0 <= r < pow10((to - from) as nat),
        r < 0x0000_00e8_d4a5_1000 + 1,
{
    proof {
        lemma_pow10_unfold();
        lemma_digits_value_bound(s@, from as int, to as int);
        lemma_pow10_monotone((to - from) as nat, 12nat);
    }
    let mut acc: i64 = 0;
    let mut i = from;
    while i < to
        invariant
            len == s@.len(),
            from <= i <= to <= len,
            to - from <= 12,
            forall|k: int| from <= k < to ==> is_digit(#[trigger] s@[k]),
            acc == digits_value(s@, from as int, i as int),
            0 <= acc < pow10((i - from) as nat),
            pow10(12) == 0x0000_00e8_d4a5_1000,
        decreases to - i,
    {
        proof {
            lemma_digits_value_bound(s@, from as int, i + 1);
            assert(pow10((i + 1 - from) as nat) <= pow10(12)) by {
                lemma_pow10_monotone(((i + 1 - from)) as nat, 12nat);
            };
            assert(digits_value(s@, from as int, i + 1) == acc * 10 + digit_val(s@[i as int]));
        }
        let c = s.get_char(i) as u32;
        acc = acc * 10 + ((c - 48) as i64);
        i = i + 1;
    }
    acc
}

/// Ten to powers up to twelve grow monotonically.
proof fn lemma_pow10_monotone(a: nat, b: nat)
    requires
        a <= b,
    ensures
        pow10(a) <= pow10(b),
        pow10(a) >= 1,
    decreases b,
{
    if a < b {
        lemma_pow10_monotone(a, (b - 1) as nat);
        assert(pow10(b) == 10 * pow10((b - 1) as nat));
    } else if b > 0 {
        lemma_pow10_monotone((a - 1) as nat, (b - 1) as nat);
    }
}

/// Executable scaling factors for fraction digits.
fn e_pow10_small(n: usize) -> (r: i64)
    requires
        n <= 5,
    ensures
        r == pow10(n as nat),
{
    proof {
        lemma_pow10_unfold();
    }
    if n == 0 {
        1
    } else if n == 1 {
        10
    } else if n == 2 {
        100
    } else if n == 3 {
        1000
    } else if n == 4 {
        10000
    } else {
        100000
    }
}

/// Executable atom parser.
fn e_atom(s: &str, len: usize, env: &ScoreMap, pos: usize) -> (r: Option<(i64, usize)>)
    requires
        len == s@.len(),
        pos <= len,
    ensures
        (match (r, parse_atom(s@, env@, pos as int)) {
            (Some((v, p)), Some((sv, sq))) => v == sv && p as int == sq && pos < p <= len,
            (None, None) => true,
            _ => false,
        }),
{
    proof {
        lemma_sp_bounds(s@, pos as int);
    }
    let q = e_sp(s, len, pos);
    if q >= len {
        return None;
    }
    let c = s.get_char(q) as u32;
    if 48 <= c && c <= 57 {
        proof {
            lemma_digits_end_bounds(s@, q as int);
        }
        let e1 = e_digits_end(s, len, q);
        if e1 - q > 12 {
            return None;
        }
        let ip = e_digits_value(s, len, q, e1);
        proof {
            lemma_pow10_unfold();
            assert(0 <= ip * (SCALE as int) < 0x0000_00e8_d4a5_1001 * 0x000f_4240)
                by (nonlinear_arith)
                requires
                    0 <= ip < 0x0000_00e8_d4a5_1001,
            ;
        }
        let scaled: i64 = ip * SCALE;
        if e1 < len && s.get_char(e1) == '.' {
            proof {
                lemma_digits_end_bounds(s@, e1 + 1);
            }
            let e2 = e_digits_end(s, len, e1 + 1);
            let fl = e2 - (e1 + 1);
            if 1 <= fl && fl <= 6 {
                let fv = e_digits_value(s, len, e1 + 1, e2);
                let scale_up = e_pow10_small(6 - fl);
                proof {
                    lemma_pow10_unfold();
                    assert(fv * (pow10((6 - fl) as nat)) < 1000000) by (nonlinear_arith)
                        requires
                            0 <= fv < pow10(fl as nat),
                            pow10(fl as nat) * pow10((6 - fl) as nat) == 1000000,
                            pow10((6 - fl) as nat) >= 1,
                    ;
                    lemma_pow10_mul_split(fl as nat);
                }
                let frac: i64 = fv * scale_up;
                Some((scaled + frac, e2))
            } else {
                None
            }
        } else {
            Some((scaled, e1))
        }
    } else if (97 <= c && c <= 122) || (65 <= c && c <= 90) || c == 95 {
        proof {
            lemma_ident_end_bounds(s@, q as int);
        }
        let e = e_ident_end(s, len, q);
        let name = s.substring_char(q, e);
        match env.get(name) {
            Some(v) => Some((v, e)),
            None => None,
        }
    } else {
        None
    }
}

/// `pow10(a) * pow10(6 - a) == pow10(6)` for `a <= 6`.
proof fn lemma_pow10_mul_split(a: nat)
    requires
        a <= 6,
    ensures
        pow10(a) * pow10((6 - a) as nat) == 1000000,
{
    lemma_pow10_unfold();
    if a == 0 {
    } else if a == 1 {
        assert(pow10(1nat) * pow10(5nat) == 1000000) by (nonlinear_arith)
            requires
                pow10(1nat) == 10,
                pow10(5nat) == 100000,
        ;
    } else if a == 2 {
        assert(pow10(2nat) * pow10(4nat) == 1000000) by (nonlinear_arith)
            requires
                pow10(2nat) == 100,
                pow10(4nat) == 10000,
        ;
    } else if a == 3 {
        assert(pow10(3nat) * pow10(3nat) == 1000000) by (nonlinear_arith)
            requires
                pow10(3nat) == 1000,
        ;
    } else if a == 4 {
        assert(pow10(4nat) * pow10(2nat) == 1000000) by (nonlinear_arith)
            requires
                pow10(4nat) == 10000,
                pow10(2nat) == 100,
        ;
    } else if a == 5 {
        assert(pow10(5nat) * pow10(1nat) == 1000000) by (nonlinear_arith)
            requires
                pow10(5nat) == 100000,
                pow10(1nat) == 10,
        ;
    } else {
        assert(pow10(6nat) * pow10(0nat) == 1000000) by (nonlinear_arith)
            requires
                pow10(6nat) == 1000000,
                pow10(0nat) == 1,
        ;
    }
}

/// Executable `*`/`/` tail.
fn e_term_tail(s: &str, len: usize, env: &ScoreMap, acc: i64, pos: usize) -> (r: Option<
    (i64, usize),
>)
    requires
        len == s@.len(),
        pos <= len,
    ensures
        (match (r, parse_term_tail(s@, env@, acc, pos as int)) {
            (Some((v, p)), Some((sv, sq))) => v == sv && p as int == sq && pos <= p <= len,
            (None, None) => true,
            _ => false,
        }),
    decreases len - pos,
{
    proof {
        lemma_sp_bounds(s@, pos as int);
    }
    let q = e_sp(s, len, pos);
    if q < len {
        let c = s.get_char(q);
        if c == '*' || c == '/' {
            match e_atom(s, len, env, q + 1) {
                Some((v, p)) => {
                    if c == '*' {
                        return e_term_tail(s, len, env, mul_score(acc, v), p);
                    } else if v == 0 {
                        return None;
                    } else {
                        return e_term_tail(s, len, env, div_score(acc, v), p);
                    }
                }
                None => {
                    return None;
                }
            }
        }
    }
    Some((acc, pos))
}

/// Executable `+`/`-` tail.
fn e_expr_tail(s: &str, len: usize, env: &ScoreMap, acc: i64, pos: usize) -> (r: Option<
    (i64, usize),
>)
    requires
        len == s@.len(),
        pos <= len,
    ensures
        (match (r, parse_expr_tail(s@, env@, acc, pos as int)) {
            (Some((v, p)), Some((sv, sq))) => v == sv && p as int == sq && pos <= p <= len,
            (None, None) => true,
            _ => false,
        }),
    decreases len - pos,
{
    proof {
        lemma_sp_bounds(s@, pos as int);
    }
    let q = e_sp(s, len, pos);
    if q < len {
        let c = s.get_char(q);
        if c == '+' || c == '-' {
            let t = match e_atom(s, len, env, q + 1) {
                Some((v, p)) => e_term_tail(s, len, env, v, p),
                None => None,
            };
            match t {
                Some((v, p)) => {
                    if c == '+' {
                        return e_expr_tail(s, len, env, add_score(acc, v), p);
                    } else {
                        let neg = sub_score(acc, v);
                        return e_expr_tail(s, len, env, neg, p);
                    }
                }
                None => {
                    return None;
                }
            }
        }
    }
    Some((acc, pos))
}

/// Saturating subtraction of two scores.
fn sub_score(a: i64, b: i64) -> (r: i64)
    ensures
        r == sat_add(a as int, -(b as int)),
{
    let s: i128 = a as i128 - b as i128;
    if s > i64::MAX as i128 {
        i64::MAX
    } else if s < i64::MIN as i128 {
        i64::MIN
    } else {
        s as i64
    }
}

/// Evaluates a weighting expression over the named scores. Returns the
/// expression's fixed-point value, or nothing when the expression is
/// malformed, names an unbound objective, or divides by zero.
pub fn eval_weighting(s: &str, env: &ScoreMap) -> (r: Option<i64>)
    ensures
        r == spec_eval(s@, env@),
{
    let len = s.unicode_len();
    let first = e_atom(s, len, env, 0);
    match first {
        Some((v, p)) => {
            match e_term_tail(s, len, env, v, p) {
                Some((v2, p2)) => {
                    match e_expr_tail(s, len, env, v2, p2) {
                        Some((v3, p3)) => {
                            let fin = e_sp(s, len, p3);
                            if fin == len {
                                Some(v3)
                            } else {
                                None
                            }
                        }
                        None => None,
                    }
                }
                None => None,
            }
        }
        None => None,
    }
}

} // verus!
