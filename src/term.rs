use vstd::prelude::*;
use crate::error::{EquationError, Fault, text_of};

verus! {

/// Coefficients are held exactly as whole numbers of units of ten to the minus this many.
pub const FRACTION_DIGITS: usize = 18;

/// The coefficient one, in units.
pub const UNIT: i128 = 1_000_000_000_000_000_000;

pub open spec fn pow10(n: nat) -> int
    decreases n,
{
    if n == 0 {
        1
    } else {
        10 * pow10((n - 1) as nat)
    }
}

pub open spec fn is_digit(c: char) -> bool {
    '0' <= c && c <= '9'
}

pub open spec fn digit_value(c: char) -> int {
    (c as u32) as int - 48
}

/// The number that a string of decimal digits writes.
pub open spec fn digits_value(s: Seq<char>) -> int
    decreases s.len(),
{
    if s.len() == 0 {
        0
    } else {
        digits_value(s.drop_last()) * 10 + digit_value(s.last())
    }
}

/// The end of the run of digits that starts at `j`.
pub open spec fn digits_end(s: Seq<char>, j: int) -> int
    decreases s.len() - j,
{
    if 0 <= j < s.len() && is_digit(s[j]) {
        digits_end(s, j + 1)
    } else {
        j
    }
}

/// One parsed term: it adds `coefficient` units to the power `exponent` of the variable.
#[derive(Clone, Copy, Debug, PartialEq, Eq)]
pub struct Term {
    pub coefficient: i128,
    pub has_variable: bool,
    pub exponent: u32,
}

/// A term is `sign? number? ('*'? 'x' ('^' digits)?)?`, where a number is `digits`,
/// `digits '.' digits?` or `'.' digits`, and a number or the variable must be there. A missing sign
/// is `+`, a missing number is one, a missing variable part is the power zero and a variable
/// without `^` the power one.
pub open spec fn parse_term_spec(t: Seq<char>) -> Result<Term, Fault> {
    let p1: int = if t.len() > 0 && (t[0] == '+' || t[0] == '-') {
        1
    } else {
        0
    };
    let p2 = digits_end(t, p1);
    let dot = p2 < t.len() && t[p2] == '.';
    let p3 = if dot {
        digits_end(t, p2 + 1)
    } else {
        p2
    };
    let fraction = if dot {
        t.subrange(p2 + 1, p3)
    } else {
        seq![]
    };
    let has_number = p2 > p1 || fraction.len() > 0;
    let q = if p3 < t.len() && t[p3] == '*' {
        p3 + 1
    } else {
        p3
    };
    let has_var = q < t.len() && t[q] == 'x';
    let p4 = if has_var {
        q + 1
    } else {
        q
    };
    let caret = has_var && p4 < t.len() && t[p4] == '^';
    let p5 = if caret {
        digits_end(t, p4 + 1)
    } else {
        p4
    };
    if p5 != t.len() || !(has_number || has_var) || (dot && !has_number) || (q > p3 && !has_var)
        || (caret && p5 == p4 + 1) {
        Err(Fault::InvalidTerm(t))
    } else {
        let units = if has_number {
            digits_value(t.subrange(p1, p2) + fraction) * pow10(
                (FRACTION_DIGITS - fraction.len()) as nat,
            )
        } else {
            UNIT as int
        };
        let exponent = if caret {
            digits_value(t.subrange(p4 + 1, p5))
        } else if has_var {
            1
        } else {
            0
        };
        if fraction.len() > FRACTION_DIGITS || units > i128::MAX || exponent > u32::MAX {
            Err(Fault::NumberOutOfRange(t))
        } else {
            Ok(
                Term {
                    coefficient: (if p1 == 1 && t[0] == '-' {
                        -units
                    } else {
                        units
                    }) as i128,
                    has_variable: has_var,
                    exponent: exponent as u32,
                },
            )
        }
    }
}

proof fn lemma_digits_prefix(s: Seq<char>, m: int)
    requires
        0 <= m <= s.len(),
        forall|k: int| 0 <= k < s.len() ==> is_digit(#[trigger] s[k]),
    ensures
        digits_value(s) >= digits_value(s.take(m)) >= 0,
    decreases s.len(),
{
    if m == s.len() {
        assert(s.take(m) =~= s);
        if s.len() > 0 {
            lemma_digits_prefix(s.drop_last(), m - 1);
            assert(s.drop_last().take(m - 1) =~= s.drop_last());
        }
    } else {
        lemma_digits_prefix(s.drop_last(), m);
        assert(s.drop_last().take(m) =~= s.take(m));
        lemma_digits_prefix(s.drop_last(), s.len() - 1);
        assert(s.drop_last().take(s.len() - 1) =~= s.drop_last());
    }
}

proof fn lemma_pow10_grows(j: nat, n: nat)
    requires
        j <= n,
    ensures
        pow10(n) >= pow10(j) >= 1,
    decreases n,
{
    if j < n {
        lemma_pow10_grows(j, (n - 1) as nat);
    } else if n > 0 {
        lemma_pow10_grows(0, (n - 1) as nat);
    }
}

fn scan_digits(t: &Vec<char>, j: usize) -> (r: usize)
    requires
        j <= t.len(),
    ensures
        r == digits_end(t@, j as int),
        j <= r <= t.len(),
        forall|k: int| j <= k < r ==> is_digit(#[trigger] t@[k]),
{
    let mut e = j;
    while e < t.len() && '0' <= t[e] && t[e] <= '9'
        invariant
            j <= e <= t.len(),
            digits_end(t@, j as int) == digits_end(t@, e as int),
            forall|k: int| j <= k < e ==> is_digit(#[trigger] t@[k]),
        decreases t.len() - e,
    {
        e += 1;
    }
    e
}

/// Reads the digits `t[from..to]` after the digits `prefix`, whose value is `acc`; `None` where
/// the whole exceeds `limit`.
fn read_digits(
    t: &Vec<char>,
    from: usize,
    to: usize,
    Ghost(prefix): Ghost<Seq<char>>,
    acc: i128,
    limit: i128,
) -> (r: Option<i128>)
    requires
        from <= to <= t.len(),
        forall|k: int| from <= k < to ==> is_digit(#[trigger] t@[k]),
        forall|k: int| 0 <= k < prefix.len() ==> is_digit(#[trigger] prefix[k]),
        0 <= acc <= limit,
        acc == digits_value(prefix),
    ensures
        match r {
            Some(v) => v == digits_value(prefix + t@.subrange(from as int, to as int)) && 0 <= v
                <= limit,
            None => digits_value(prefix + t@.subrange(from as int, to as int)) > limit,
        },
{
    let ghost whole = prefix + t@.subrange(from as int, to as int);
    assert forall|k: int| 0 <= k < whole.len() implies is_digit(#[trigger] whole[k]) by {
        if k >= prefix.len() {
            assert(whole[k] == t@[from + k - prefix.len()]);
        }
    }
    let mut acc = acc;
    let mut k = from;
    while k < to
        invariant
            from <= k <= to <= t.len(),
            forall|j: int| from <= j < to ==> is_digit(#[trigger] t@[j]),
            0 <= acc <= limit,
            acc == digits_value(prefix + t@.subrange(from as int, k as int)),
            whole == prefix + t@.subrange(from as int, to as int),
            forall|j: int| 0 <= j < whole.len() ==> is_digit(#[trigger] whole[j]),
        decreases to - k,
    {
        let d = (t[k] as u32 - 48) as i128;
        let ghost next = prefix + t@.subrange(from as int, k + 1);
        assert(next.drop_last() =~= prefix + t@.subrange(from as int, k as int));
        assert(next =~= whole.take(next.len() as int));
        assert(0 <= d <= 9);
        if d > limit || acc > (limit - d) / 10 {
            assert(acc * 10 + d > limit) by (nonlinear_arith)
                requires
                    d > limit || acc > (limit - d) / 10,
                    0 <= d <= 9,
                    acc >= 0,
            ;
            proof {
                lemma_digits_prefix(whole, next.len() as int);
            }
            return None;
        }
        assert(acc * 10 + d <= limit) by (nonlinear_arith)
            requires
                acc <= (limit - d) / 10,
                0 <= d <= limit,
        ;
        acc = acc * 10 + d;
        k += 1;
    }
    assert(prefix + t@.subrange(from as int, k as int) =~= whole);
    Some(acc)
}

/// `v` times ten to the `n`, or `None` where that exceeds the largest `i128`.
fn scale_up(v: i128, n: usize) -> (r: Option<i128>)
    requires
        v >= 0,
    ensures
        match r {
            Some(u) => u == v * pow10(n as nat) && u >= 0,
            None => v * pow10(n as nat) > i128::MAX,
        },
{
    let mut acc = v;
    let mut j: usize = 0;
    while j < n
        invariant
            j <= n,
            v >= 0,
            0 <= acc,
            acc == v * pow10(j as nat),
        decreases n - j,
    {
        assert(pow10((j + 1) as nat) == 10 * pow10(j as nat));
        assert(v * pow10((j + 1) as nat) == acc * 10) by (nonlinear_arith)
            requires
                pow10((j + 1) as nat) == 10 * pow10(j as nat),
                acc == v * pow10(j as nat),
        ;
        if acc > i128::MAX / 10 {
            proof {
                lemma_pow10_grows((j + 1) as nat, n as nat);
                let a = pow10((j + 1) as nat);
                let b = pow10(n as nat);
                assert(v * b >= v * a) by (nonlinear_arith)
                    requires
                        b >= a,
                        v >= 0,
                ;
            }
            return None;
        }
        acc = acc * 10;
        j += 1;
    }
    Some(acc)
}


/// The units of the number `t[p1..p2]`, followed where `dot` holds by `.` and the fraction
/// digits `t[p2 + 1..p3]`.
pub open spec fn number_units(t: Seq<char>, p1: int, p2: int, p3: int, dot: bool) -> int {
    let fraction = if dot {
        t.subrange(p2 + 1, p3)
    } else {
        seq![]
    };
    digits_value(t.subrange(p1, p2) + fraction) * pow10((FRACTION_DIGITS - fraction.len()) as nat)
}

fn read_units(t: &Vec<char>, p1: usize, p2: usize, p3: usize, dot: bool) -> (r: Option<i128>)
    requires
        p1 <= p2 <= p3 <= t.len(),
        forall|k: int| p1 <= k < p2 ==> is_digit(#[trigger] t@[k]),
        dot ==> p2 < p3 && forall|k: int| p2 + 1 <= k < p3 ==> is_digit(#[trigger] t@[k]),
        !dot ==> p3 == p2,
        dot ==> p3 - (p2 + 1) <= FRACTION_DIGITS,
    ensures
        match r {
            Some(u) => u == number_units(t@, p1 as int, p2 as int, p3 as int, dot) && u >= 0,
            None => number_units(t@, p1 as int, p2 as int, p3 as int, dot) > i128::MAX,
        },
{
    let fraction_len: usize = if dot {
        p3 - (p2 + 1)
    } else {
        0
    };
    let ghost fraction = if dot {
        t@.subrange(p2 + 1, p3 as int)
    } else {
        seq![]
    };
    let ghost whole = t@.subrange(p1 as int, p2 as int) + fraction;
    let shift = FRACTION_DIGITS - fraction_len;
    proof {
        lemma_pow10_grows(0, shift as nat);
        assert(Seq::<char>::empty() + t@.subrange(p1 as int, p2 as int) =~= t@.subrange(
            p1 as int,
            p2 as int,
        ));
        assert(whole.take(p2 - p1) =~= t@.subrange(p1 as int, p2 as int));
        assert forall|k: int| 0 <= k < whole.len() implies is_digit(#[trigger] whole[k]) by {
            if k < p2 - p1 {
                assert(whole[k] == t@[p1 + k]);
            } else {
                assert(whole[k] == t@[p2 + 1 + k - (p2 - p1)]);
            }
        }
        lemma_digits_prefix(whole, p2 - p1);
        let m = digits_value(whole);
        let f = pow10(shift as nat);
        assert(m * f >= m) by (nonlinear_arith)
            requires
                f >= 1,
                m >= 0,
        ;
    }
    let mantissa = match read_digits(t, p1, p2, Ghost(Seq::empty()), 0, i128::MAX) {
        None => {
            return None;
        },
        Some(a) => {
            if dot {
                read_digits(t, p2 + 1, p3, Ghost(t@.subrange(p1 as int, p2 as int)), a, i128::MAX)
            } else {
                assert(whole =~= t@.subrange(p1 as int, p2 as int));
                Some(a)
            }
        },
    };
    match mantissa {
        None => None,
        Some(m) => scale_up(m, shift),
    }
}

/// Parses one term by the term grammar.
#[verifier::rlimit(100)]
pub fn parse_term(t: &Vec<char>) -> (r: Result<Term, EquationError>)
    ensures
        match (r, parse_term_spec(t@)) {
            (Ok(a), Ok(b)) => a == b,
            (Err(e), Err(f)) => e@ == f,
            _ => false,
        },
{
    let n = t.len();
    let p1: usize = if n > 0 && (t[0] == '+' || t[0] == '-') {
        1
    } else {
        0
    };
    let p2 = scan_digits(t, p1);
    let dot = p2 < n && t[p2] == '.';
    let p3 = if dot {
        scan_digits(t, p2 + 1)
    } else {
        p2
    };
    let fraction_len: usize = if dot {
        p3 - (p2 + 1)
    } else {
        0
    };
    let ghost fraction = if dot {
        t@.subrange(p2 + 1, p3 as int)
    } else {
        seq![]
    };
    let has_number = p2 > p1 || fraction_len > 0;
    let q = if p3 < n && t[p3] == '*' {
        p3 + 1
    } else {
        p3
    };
    let has_var = q < n && t[q] == 'x';
    let p4 = if has_var {
        q + 1
    } else {
        q
    };
    let caret = has_var && p4 < n && t[p4] == '^';
    let p5 = if caret {
        scan_digits(t, p4 + 1)
    } else {
        p4
    };
    if p5 != n || !(has_number || has_var) || (dot && !has_number) || (q > p3 && !has_var) || (
    caret && p5 == p4 + 1) {
        return Err(EquationError::InvalidTerm(text_of(t)));
    }
    let units: i128 = if has_number {
        if fraction_len > FRACTION_DIGITS {
            return Err(EquationError::NumberOutOfRange(text_of(t)));
        }
        match read_units(t, p1, p2, p3, dot) {
            None => {
                return Err(EquationError::NumberOutOfRange(text_of(t)));
            },
            Some(u) => u,
        }
    } else {
        UNIT
    };
    let exponent: u32 = if caret {
        match read_digits(t, p4 + 1, p5, Ghost(Seq::empty()), 0, u32::MAX as i128) {
            None => {
                assert(seq![] + t@.subrange(p4 + 1, p5 as int) =~= t@.subrange(p4 + 1, p5 as int));
                return Err(EquationError::NumberOutOfRange(text_of(t)));
            },
            Some(e) => {
                assert(seq![] + t@.subrange(p4 + 1, p5 as int) =~= t@.subrange(p4 + 1, p5 as int));
                e as u32
            },
        }
    } else if has_var {
        1
    } else {
        0
    };
    let coefficient = if p1 == 1 && t[0] == '-' {
        -units
    } else {
        units
    };
    Ok(Term { coefficient, has_variable: has_var, exponent })
}

} // verus!
