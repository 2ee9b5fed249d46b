use vstd::prelude::*;
use crate::equation::{checked_term, equation_terms, expression_of, parse_tokens};
use crate::error::Fault;
use crate::lexer::{
    count_equals,
    first_equals_from,
    is_sign,
    is_space,
    lower,
    normalize,
    run_end,
    signed,
    split_sides,
    tokens_from,
};
use crate::poly::{
    abs,
    decimal,
    descending,
    digit_char,
    formula_text,
    holds_totals,
    magnitude_text,
    padded,
    sums_fit,
    term_text,
    terms_text,
    total,
    trim_zeros,
    CoefficientMap,
};
use crate::term::{digit_value, digits_end, digits_value, is_digit, pow10, Term, FRACTION_DIGITS, UNIT};

verus! {

proof fn lemma_digit_char(d: nat)
    requires
        d < 10,
    ensures
        is_digit(digit_char(d)),
        digit_value(digit_char(d)) == d,
{
}

proof fn lemma_digits_concat(a: Seq<char>, b: Seq<char>)
    ensures
        digits_value(a + b) == digits_value(a) * pow10(b.len()) + digits_value(b),
    decreases b.len(),
{
    if b.len() == 0 {
        assert(a + b =~= a);
    } else {
        assert((a + b).drop_last() =~= a + b.drop_last());
        lemma_digits_concat(a, b.drop_last());
        let x = digits_value(a);
        let p = pow10(b.drop_last().len());
        let y = digits_value(b.drop_last());
        assert((x * p + y) * 10 == x * (10 * p) + y * 10) by (nonlinear_arith);
    }
}

proof fn lemma_decimal(q: nat)
    ensures
        decimal(q).len() >= 1,
        forall|k: int| 0 <= k < decimal(q).len() ==> is_digit(#[trigger] decimal(q)[k]),
        digits_value(decimal(q)) == q,
    decreases q,
{
    lemma_digit_char(q % 10);
    if q >= 10 {
        lemma_decimal(q / 10);
        assert(decimal(q).drop_last() =~= decimal(q / 10));
        assert(decimal(q).last() == digit_char(q % 10));
        assert(q == (q / 10) * 10 + q % 10);
        assert(digits_value(decimal(q)) == digits_value(decimal(q / 10)) * 10 + digit_value(
            digit_char(q % 10),
        ));
    } else {
        assert(decimal(q).drop_last() =~= seq![]);
        assert(digits_value(seq![]) == 0);
        assert(digits_value(decimal(q)) == digit_value(digit_char(q)));
    }
}

proof fn lemma_padded(q: nat, w: nat)
    ensures
        padded(q, w).len() == w,
        forall|k: int| 0 <= k < w ==> is_digit(#[trigger] padded(q, w)[k]),
        digits_value(padded(q, w)) == (q as int) % pow10(w),
    decreases w,
{
    if w > 0 {
        lemma_digit_char(q % 10);
        lemma_padded(q / 10, (w - 1) as nat);
        assert(padded(q, w).drop_last() =~= padded(q / 10, (w - 1) as nat));
        let p = pow10((w - 1) as nat);
        crate::laws::lemma_pow_pos((w - 1) as nat);
        vstd::arithmetic::div_mod::lemma_breakdown(q as int, 10, p);
        assert(pow10(w) == 10 * p);
    }
}

proof fn lemma_pow_pos(n: nat)
    ensures
        pow10(n) >= 1,
    decreases n,
{
    if n > 0 {
        lemma_pow_pos((n - 1) as nat);
    }
}


proof fn lemma_trim(s: Seq<char>)
    requires
        forall|k: int| 0 <= k < s.len() ==> is_digit(#[trigger] s[k]),
    ensures
        trim_zeros(s).len() <= s.len(),
        trim_zeros(s) == s.take(trim_zeros(s).len() as int),
        digits_value(s) == digits_value(trim_zeros(s)) * pow10((s.len() - trim_zeros(s).len()) as nat),
        digits_value(s) != 0 ==> trim_zeros(s).len() > 0,
        trim_zeros(s).len() > 0 ==> trim_zeros(s).last() != '0',
    decreases s.len(),
{
    if s.len() > 0 && s.last() == '0' {
        let d = s.drop_last();
        lemma_trim(d);
        let t = trim_zeros(d);
        assert(s.take(t.len() as int) =~= d.take(t.len() as int));
        let n = (d.len() - t.len()) as nat;
        assert(pow10(n + 1) == 10 * pow10(n));
        assert((s.len() - t.len()) as nat == n + 1);
        let x = digits_value(t);
        assert(x * pow10(n) * 10 == x * (10 * pow10(n))) by (nonlinear_arith);
        assert(digit_value(s.last()) == 0);
    } else {
        assert(s.take(s.len() as int) =~= s);
    }
}

/// Where the digits `t[a..b]` are followed by a character other than a digit, or by the end,
/// the run of digits from `a` ends at `b`.
proof fn lemma_digits_end(t: Seq<char>, a: int, b: int)
    requires
        0 <= a <= b <= t.len(),
        forall|k: int| a <= k < b ==> is_digit(#[trigger] t[k]),
        b == t.len() || !is_digit(t[b]),
    ensures
        digits_end(t, a) == b,
    decreases b - a,
{
    if a < b {
        lemma_digits_end(t, a + 1, b);
    }
}

proof fn lemma_unit()
    ensures
        pow10(FRACTION_DIGITS as nat) == UNIT,
{
    reveal_with_fuel(pow10, 19);
}

/// The text of a magnitude, read back as whole digits and fraction digits, gives the magnitude.
proof fn lemma_magnitude_parts(u: nat)
    ensures
        ({
            let q = u / (UNIT as nat);
            let r = u % (UNIT as nat);
            let f = trim_zeros(padded(r, FRACTION_DIGITS as nat));
            &&& magnitude_text(u) == decimal(q) + if r == 0 {
                seq![]
            } else {
                seq!['.'] + f
            }
            &&& r != 0 ==> f.len() > 0
            &&& f.len() <= FRACTION_DIGITS
            &&& forall|k: int| 0 <= k < f.len() ==> is_digit(#[trigger] f[k])
            &&& decimal(q).len() >= 1
            &&& forall|k: int| 0 <= k < decimal(q).len() ==> is_digit(#[trigger] decimal(q)[k])
            &&& digits_value(decimal(q) + if r == 0 {
                seq![]
            } else {
                f
            }) * pow10((FRACTION_DIGITS - (if r == 0 {
                0
            } else {
                f.len()
            })) as nat) == u
        }),
{
    let q = u / (UNIT as nat);
    let r = u % (UNIT as nat);
    let w = FRACTION_DIGITS as nat;
    let pd = padded(r, w);
    let f = trim_zeros(pd);
    lemma_unit();
    vstd::arithmetic::div_mod::lemma_fundamental_div_mod(u as int, UNIT as int);
    assert(u == q * UNIT + r);
    lemma_decimal(q);
    lemma_padded(r, w);
    lemma_trim(pd);
    assert forall|k: int| 0 <= k < f.len() implies is_digit(#[trigger] f[k]) by {
        assert(f[k] == pd[k]);
    }
    assert((r as int) % pow10(w) == r);
    if r == 0 {
        assert(decimal(q) + seq![] =~= decimal(q));
        assert(u == q * UNIT + r);
    } else {
        lemma_digits_concat(decimal(q), f);
        let a = pow10(f.len());
        let b = pow10((w - f.len()) as nat);
        lemma_pow_split(f.len(), (w - f.len()) as nat);
        let dq = q as int;
        let df = digits_value(f);
        assert((dq * a + df) * b == dq * (a * b) + df * b) by (nonlinear_arith);
        assert(u == q * UNIT + r);
    }
}

proof fn lemma_pow_split(a: nat, b: nat)
    ensures
        pow10(a) * pow10(b) == pow10(a + b),
    decreases a,
{
    if a > 0 {
        lemma_pow_split((a - 1) as nat, b);
        let x = pow10((a - 1) as nat);
        let y = pow10(b);
        assert(10 * x * y == 10 * (x * y)) by (nonlinear_arith);
    }
}


/// The variable part of a term of the reduced form, without spaces.
pub open spec fn power_text(e: u32) -> Seq<char> {
    if e == 0 {
        seq![]
    } else if e == 1 {
        seq!['x']
    } else {
        seq!['x', '^'] + decimal(e as nat)
    }
}

/// A term of the reduced form without its spaces.
pub open spec fn compact_term(e: u32, c: i128) -> Seq<char> {
    seq![if c < 0 {
        '-'
    } else {
        '+'
    }] + magnitude_text(abs(c as int)) + power_text(e)
}

/// A term of the reduced form, read back, gives its exponent and coefficient.
#[verifier::rlimit(100)]
proof fn lemma_term_round_trip(e: u32, c: i128)
    requires
        c != i128::MIN,
    ensures
        checked_term(compact_term(e, c)) == Ok::<Term, crate::error::Fault>(
            Term { coefficient: c, has_variable: e > 0, exponent: e },
        ),
{
    let t = compact_term(e, c);
    let u = abs(c as int);
    let q = u / (UNIT as nat);
    let r = u % (UNIT as nat);
    let f = trim_zeros(padded(r, FRACTION_DIGITS as nat));
    let d = decimal(q);
    let frac: Seq<char> = if r == 0 {
        seq![]
    } else {
        f
    };
    let mid: Seq<char> = if r == 0 {
        seq![]
    } else {
        seq!['.'] + f
    };
    let v = power_text(e);
    lemma_magnitude_parts(u);
    lemma_decimal(e as nat);
    assert(t =~= seq![t[0]] + d + mid + v);
    let p2: int = 1 + d.len() as int;
    let p3: int = if r == 0 {
        p2
    } else {
        p2 + 1 + f.len()
    };
    assert(t.subrange(1, p2) =~= d);
    assert forall|k: int| 1 <= k < p2 implies is_digit(#[trigger] t[k]) by {
        assert(t[k] == d[k - 1]);
    }
    assert(p2 == t.len() || !is_digit(t[p2])) by {
        if p2 < t.len() {
            if r != 0 {
                assert(t[p2] == '.');
            } else {
                assert(t[p2] == v[0]);
            }
        }
    }
    lemma_digits_end(t, 1, p2);
    if r != 0 {
        assert(t[p2] == '.');
        assert(t.subrange(p2 + 1, p3) =~= f);
        assert forall|k: int| p2 + 1 <= k < p3 implies is_digit(#[trigger] t[k]) by {
            assert(t[k] == f[k - p2 - 1]);
        }
        assert(p3 == t.len() || !is_digit(t[p3])) by {
            if p3 < t.len() {
                assert(t[p3] == v[0]);
            }
        }
        lemma_digits_end(t, p2 + 1, p3);
    } else {
        assert(p2 == t.len() || t[p2] != '.') by {
            if p2 < t.len() {
                assert(t[p2] == v[0]);
            }
        }
    }
    assert(t.len() == p3 + v.len());
    assert(forall|k: int| 0 <= k < v.len() ==> t[p3 + k] == v[k]);
    if e >= 2 {
        assert(t[p3] == 'x');
        assert(t[p3 + 1] == '^');
        assert forall|k: int| p3 + 2 <= k < t.len() implies is_digit(#[trigger] t[k]) by {
            assert(t[k] == v[k - p3]);
            assert(v[k - p3] == decimal(e as nat)[k - p3 - 2]);
        }
        lemma_digits_end(t, p3 + 2, t.len() as int);
        assert(t.subrange(p3 + 2, t.len() as int) =~= decimal(e as nat));
    } else if e == 1 {
        assert(t[p3] == 'x');
    }
    assert(t.subrange(1, p2) + frac =~= d + frac);
    if c < 0 {
        assert(t[0] == '-');
    } else {
        assert(t[0] == '+');
    }
}


/// The characters that the reduced form writes, but for spaces and `=`.
pub open spec fn plain_char(c: char) -> bool {
    is_digit(c) || c == '.' || c == 'x' || c == '^' || c == '+' || c == '-'
}

pub open spec fn plain(s: Seq<char>) -> bool {
    forall|k: int| 0 <= k < s.len() ==> plain_char(#[trigger] s[k])
}

/// The terms of the reduced form without spaces, one after the other.
pub open spec fn compact_terms(s: Seq<(u32, i128)>) -> Seq<char>
    decreases s.len(),
{
    if s.len() == 0 {
        seq![]
    } else {
        compact_terms(s.drop_last()) + compact_term(s.last().0, s.last().1)
    }
}

proof fn lemma_normalize_concat(a: Seq<char>, b: Seq<char>)
    ensures
        normalize(a + b) == normalize(a) + normalize(b),
    decreases b.len(),
{
    if b.len() == 0 {
        assert(a + b =~= a);
        assert(normalize(a) + normalize(b) =~= normalize(a));
    } else {
        assert((a + b).drop_last() =~= a + b.drop_last());
        lemma_normalize_concat(a, b.drop_last());
        if is_space(b.last()) {
        } else {
            assert(normalize(a) + normalize(b) =~= (normalize(a) + normalize(b.drop_last())).push(
                lower(b.last()),
            ));
        }
    }
}

proof fn lemma_normalize_one(c: char)
    ensures
        normalize(seq![c]) == if is_space(c) {
            seq![]
        } else {
            seq![lower(c)]
        },
{
    let one = seq![c];
    assert(one.len() == 1);
    assert(one.drop_last() =~= Seq::<char>::empty());
    assert(one.last() == c);
    assert(normalize(Seq::<char>::empty()) == Seq::<char>::empty());
    assert(Seq::<char>::empty().push(lower(c)) =~= seq![lower(c)]);
    assert(normalize(one) == if is_space(c) {
        normalize(one.drop_last())
    } else {
        normalize(one.drop_last()).push(lower(c))
    });
}

proof fn lemma_count_concat(a: Seq<char>, b: Seq<char>)
    ensures
        count_equals(a + b) == count_equals(a) + count_equals(b),
    decreases b.len(),
{
    if b.len() == 0 {
        assert(a + b =~= a);
    } else {
        assert((a + b).drop_last() =~= a + b.drop_last());
        lemma_count_concat(a, b.drop_last());
    }
}

proof fn lemma_count_one(c: char)
    ensures
        count_equals(seq![c]) == if c == '=' {
            1nat
        } else {
            0nat
        },
{
    let one = seq![c];
    assert(one.len() == 1);
    assert(one.drop_last() =~= Seq::<char>::empty());
    assert(count_equals(Seq::<char>::empty()) == 0);
    assert(one.last() == c);
}

proof fn lemma_normalize_plain(s: Seq<char>)
    requires
        plain(s),
    ensures
        normalize(s) == s,
    decreases s.len(),
{
    if s.len() > 0 {
        lemma_normalize_plain(s.drop_last());
        assert(plain_char(s.last()));
        assert(s.drop_last().push(s.last()) =~= s);
    }
}

proof fn lemma_compact_term_plain(e: u32, c: i128)
    ensures
        plain(compact_term(e, c)),
        plain(magnitude_text(abs(c as int))),
        plain(power_text(e)),
        compact_term(e, c).len() >= 2,
        is_sign(compact_term(e, c)[0]),
        forall|k: int| 1 <= k < compact_term(e, c).len() ==> !is_sign(#[trigger] compact_term(e, c)[k]),
{
    let u = abs(c as int);
    lemma_magnitude_parts(u);
    lemma_decimal(e as nat);
    let m = magnitude_text(u);
    let t = compact_term(e, c);
    let q = u / (UNIT as nat);
    assert forall|k: int| 0 <= k < m.len() implies plain_char(#[trigger] m[k]) && !is_sign(m[k]) by {
        if k >= decimal(q).len() {
            let f = trim_zeros(padded(u % (UNIT as nat), FRACTION_DIGITS as nat));
            if k > decimal(q).len() {
                assert(m[k] == f[k - decimal(q).len() - 1]);
            }
        }
    }
    let v = power_text(e);
    assert forall|k: int| 0 <= k < v.len() implies plain_char(#[trigger] v[k]) && !is_sign(v[k]) by {
        if e >= 2 && k >= 2 {
            assert(v[k] == decimal(e as nat)[k - 2]);
        }
    }
    assert forall|k: int| 0 <= k < t.len() implies plain_char(#[trigger] t[k]) && (k >= 1 ==> !is_sign(t[k])) by {
        if 1 <= k < 1 + m.len() {
            assert(t[k] == m[k - 1]);
        } else if k >= 1 + m.len() {
            assert(t[k] == v[k - 1 - m.len()]);
        }
    }
}

proof fn lemma_compact_terms_plain(s: Seq<(u32, i128)>)
    ensures
        plain(compact_terms(s)),
    decreases s.len(),
{
    if s.len() > 0 {
        lemma_compact_terms_plain(s.drop_last());
        lemma_compact_term_plain(s.last().0, s.last().1);
        let a = compact_terms(s.drop_last());
        let b = compact_term(s.last().0, s.last().1);
        assert forall|k: int| 0 <= k < (a + b).len() implies plain_char(#[trigger] (a + b)[k]) by {
            if k >= a.len() {
                assert((a + b)[k] == b[k - a.len()]);
            }
        }
    }
}

proof fn lemma_normalize_term(e: u32, c: i128)
    ensures
        normalize(term_text(e, c)) == compact_term(e, c),
{
    lemma_compact_term_plain(e, c);
    let sg = if c < 0 {
        '-'
    } else {
        '+'
    };
    let m = magnitude_text(abs(c as int));
    let tail: Seq<char> = if e == 0 {
        seq![]
    } else if e == 1 {
        seq![' ', 'x']
    } else {
        seq![' ', 'x', '^'] + decimal(e as nat)
    };
    assert(term_text(e, c) == seq![sg, ' '] + m + tail);
    lemma_normalize_concat(seq![sg, ' '] + m, tail);
    lemma_normalize_concat(seq![sg, ' '], m);
    lemma_normalize_plain(m);
    lemma_normalize_one(sg);
    lemma_normalize_one(' ');
    lemma_normalize_concat(seq![sg], seq![' ']);
    assert(seq![sg] + seq![' '] =~= seq![sg, ' ']);
    assert(normalize(seq![sg, ' ']) =~= seq![sg]);
    if e == 0 {
        assert(normalize(tail) =~= seq![]);
    } else if e == 1 {
        lemma_normalize_one(' ');
        lemma_normalize_one('x');
        lemma_normalize_concat(seq![' '], seq!['x']);
        assert(seq![' '] + seq!['x'] =~= tail);
        assert(normalize(tail) =~= seq!['x']);
    } else {
        lemma_normalize_concat(seq![' ', 'x', '^'], decimal(e as nat));
        lemma_decimal(e as nat);
        assert(plain(decimal(e as nat)));
        lemma_normalize_plain(decimal(e as nat));
        let h = seq![' ', 'x', '^'];
        lemma_normalize_one(' ');
        lemma_normalize_one('x');
        lemma_normalize_one('^');
        lemma_normalize_concat(seq![' '], seq!['x']);
        lemma_normalize_concat(seq![' '] + seq!['x'], seq!['^']);
        assert(seq![' '] + seq!['x'] + seq!['^'] =~= h);
        assert(normalize(h) =~= seq!['x', '^']);
        assert(normalize(tail) =~= power_text(e));
    }
    assert(normalize(term_text(e, c)) =~= compact_term(e, c));
}

proof fn lemma_normalize_terms(s: Seq<(u32, i128)>)
    ensures
        normalize(terms_text(s)) == compact_terms(s),
    decreases s.len(),
{
    if s.len() == 1 {
        lemma_normalize_term(s[0].0, s[0].1);
        assert(s.drop_last() =~= Seq::<(u32, i128)>::empty());
        assert(compact_terms(s.drop_last()) == Seq::<char>::empty());
        assert(compact_terms(s) =~= compact_term(s[0].0, s[0].1));
    } else if s.len() > 1 {
        lemma_normalize_terms(s.drop_last());
        lemma_normalize_term(s.last().0, s.last().1);
        let a = terms_text(s.drop_last());
        let b = term_text(s.last().0, s.last().1);
        lemma_normalize_concat(a + seq![' '], b);
        lemma_normalize_concat(a, seq![' ']);
        lemma_normalize_one(' ');
        assert(normalize(a) + Seq::<char>::empty() =~= normalize(a));
    }
}

proof fn lemma_no_equals(a: Seq<char>)
    requires
        plain(a),
    ensures
        count_equals(a) == 0,
    decreases a.len(),
{
    if a.len() > 0 {
        lemma_no_equals(a.drop_last());
        assert(plain_char(a.last()));
    }
}

proof fn lemma_first_equals(a: Seq<char>, i: int)
    requires
        plain(a),
        0 <= i <= a.len(),
    ensures
        first_equals_from(a + seq!['=', '0'], i) == a.len(),
    decreases a.len() - i,
{
    let x = a + seq!['=', '0'];
    if i < a.len() {
        assert(x[i] == a[i]);
        assert(plain_char(a[i]));
        lemma_first_equals(a, i + 1);
    } else {
        assert(x[i] == '=');
    }
}

/// The reduced form splits into its terms on the left and `0` on the right.
proof fn lemma_split_formula(s: Seq<(u32, i128)>)
    ensures
        s.len() > 0 ==> split_sides(normalize(formula_text(s))) == Ok::<(Seq<char>, Seq<char>), Fault>(
            (compact_terms(s), seq!['0']),
        ),
        s.len() == 0 ==> split_sides(normalize(formula_text(s))) == Ok::<(Seq<char>, Seq<char>), Fault>(
            (seq!['0'], seq!['0']),
        ),
{
    lemma_normalize_one(' ');
    lemma_normalize_one('=');
    lemma_normalize_one('0');
    let tail = seq![' ', '=', ' ', '0'];
    lemma_normalize_concat(seq![' '], seq!['=']);
    lemma_normalize_concat(seq![' '] + seq!['='], seq![' ']);
    lemma_normalize_concat(seq![' '] + seq!['='] + seq![' '], seq!['0']);
    assert(seq![' '] + seq!['='] + seq![' '] + seq!['0'] =~= tail);
    assert(normalize(tail) =~= seq!['=', '0']);
    let a = if s.len() == 0 {
        seq!['0']
    } else {
        compact_terms(s)
    };
    if s.len() == 0 {
        lemma_normalize_concat(seq!['0'], tail);
        assert(seq!['0'] + tail =~= formula_text(s));
        assert(plain_char('0'));
    } else {
        lemma_normalize_terms(s);
        lemma_compact_terms_plain(s);
        lemma_normalize_concat(terms_text(s), tail);
    }
    let x = a + seq!['=', '0'];
    assert(normalize(formula_text(s)) == x);
    lemma_no_equals(a);
    lemma_first_equals(a, 0);
    lemma_count_concat(a, seq!['=', '0']);
    lemma_count_concat(seq!['='], seq!['0']);
    lemma_count_one('=');
    lemma_count_one('0');
    assert(seq!['='] + seq!['0'] =~= seq!['=', '0']);
    assert(count_equals(x) == 1);
    assert(x.take(a.len() as int) =~= a);
    assert(x.skip(a.len() as int + 1) =~= seq!['0']);
}


proof fn lemma_run_end_block(t: Seq<char>, a: int, b: int)
    requires
        0 <= a <= b <= t.len(),
        forall|k: int| a <= k < b ==> !is_sign(#[trigger] t[k]),
        b == t.len() || is_sign(t[b]),
    ensures
        run_end(t, a) == b,
    decreases b - a,
{
    if a < b {
        lemma_run_end_block(t, a + 1, b);
    }
}

proof fn lemma_run_end_prefix(a: Seq<char>, t: Seq<char>, j: int)
    requires
        t.len() > 0,
        is_sign(t[0]),
        0 <= j <= a.len(),
    ensures
        run_end(a + t, j) == run_end(a, j),
        j <= run_end(a, j) <= a.len(),
    decreases a.len() - j,
{
    if j < a.len() {
        assert((a + t)[j] == a[j]);
        lemma_run_end_prefix(a, t, j + 1);
    } else {
        assert((a + t)[j] == t[0]);
    }
}

/// A term of the reduced form, put after other text, is read as one more token.
proof fn lemma_tokens_append(a: Seq<char>, t: Seq<char>, i: int)
    requires
        t.len() >= 2,
        is_sign(t[0]),
        forall|k: int| 1 <= k < t.len() ==> !is_sign(#[trigger] t[k]),
        0 <= i <= a.len(),
    ensures
        tokens_from(a + t, i) == tokens_from(a, i) + seq![t],
    decreases a.len() - i,
{
    let x = a + t;
    if i == a.len() {
        assert(x[i] == t[0]);
        assert forall|k: int| i + 1 <= k < x.len() implies !is_sign(#[trigger] x[k]) by {
            assert(x[k] == t[k - a.len()]);
        }
        lemma_run_end_block(x, i + 1, x.len() as int);
        assert(x.subrange(i, x.len() as int) =~= t);
        assert(tokens_from(x, x.len() as int) == Seq::<Seq<char>>::empty());
        assert(tokens_from(a, i) == Seq::<Seq<char>>::empty());
        assert(seq![t] + Seq::<Seq<char>>::empty() =~= Seq::<Seq<char>>::empty() + seq![t]);
    } else {
        assert(x[i] == a[i]);
        let start = if is_sign(a[i]) {
            i + 1
        } else {
            i
        };
        lemma_run_end_prefix(a, t, start);
        let end = run_end(a, start);
        if start < end {
            lemma_tokens_append(a, t, end);
            assert(x.subrange(i, end) =~= a.subrange(i, end));
            assert(seq![a.subrange(i, end)] + (tokens_from(a, end) + seq![t]) =~= (seq![
                a.subrange(i, end),
            ] + tokens_from(a, end)) + seq![t]);
        } else {
            lemma_tokens_append(a, t, i + 1);
        }
    }
}

pub open spec fn compact_of(p: (u32, i128)) -> Seq<char> {
    compact_term(p.0, p.1)
}

pub open spec fn term_of(p: (u32, i128)) -> Term {
    Term { coefficient: p.1, has_variable: p.0 > 0, exponent: p.0 }
}

pub open spec fn terms_of(s: Seq<(u32, i128)>) -> Seq<Term> {
    s.map_values(|p: (u32, i128)| term_of(p))
}

pub open spec fn compacts_of(s: Seq<(u32, i128)>) -> Seq<Seq<char>> {
    s.map_values(|p: (u32, i128)| compact_of(p))
}

proof fn lemma_tokens_compact(s: Seq<(u32, i128)>)
    ensures
        tokens_from(compact_terms(s), 0) == compacts_of(s),
    decreases s.len(),
{
    if s.len() == 0 {
        assert(compacts_of(s) =~= Seq::<Seq<char>>::empty());
    } else {
        lemma_tokens_compact(s.drop_last());
        let t = compact_term(s.last().0, s.last().1);
        lemma_compact_term_plain(s.last().0, s.last().1);
        lemma_tokens_append(compact_terms(s.drop_last()), t, 0);
        assert(compacts_of(s) =~= compacts_of(s.drop_last()).push(t));
    }
}

proof fn lemma_parse_compact(s: Seq<(u32, i128)>)
    requires
        forall|j: int| 0 <= j < s.len() ==> #[trigger] s[j].1 != i128::MIN,
    ensures
        parse_tokens(compacts_of(s)) == Ok::<Seq<Term>, Fault>(
            terms_of(s),
        ),
    decreases s.len(),
{
    let toks = compacts_of(s);
    if s.len() == 0 {
        assert(terms_of(s) =~= Seq::<Term>::empty());
    } else {
        lemma_parse_compact(s.drop_last());
        assert(toks.drop_last() =~= compacts_of(s.drop_last()));
        assert(s[s.len() - 1].1 != i128::MIN);
        lemma_term_round_trip(s.last().0, s.last().1);
        assert(terms_of(s) =~= terms_of(s.drop_last()).push(term_of(s.last())));
    }
}

proof fn lemma_totals(s: Seq<(u32, i128)>, k: int)
    requires
        descending(s),
        0 <= k <= s.len(),
    ensures
        forall|j: int|
            0 <= j < k ==> total(terms_of(s).take(k), #[trigger] s[j].0 as int)
                == s[j].1,
        forall|x: int|
            (forall|j: int| 0 <= j < k ==> s[j].0 != x) ==> #[trigger] total(
                terms_of(s).take(k),
                x,
            ) == 0,
    decreases k,
{
    let ts = terms_of(s);
    if k == 0 {
        assert forall|x: int| #[trigger] total(ts.take(0), x) == 0 by {
            assert(ts.take(0).len() == 0);
        }
    } else {
        lemma_totals(s, k - 1);
        assert(ts.take(k).drop_last() =~= ts.take(k - 1));
        assert(ts.take(k).last() == term_of(s[k - 1]));
        let last = s[k - 1];
        assert forall|y: int| #[trigger] total(ts.take(k), y) == total(ts.take(k - 1), y) + if last.0
            == y {
            last.1 as int
        } else {
            0
        } by {}
        assert forall|j: int| 0 <= j < k implies total(ts.take(k), #[trigger] s[j].0 as int) == s[j].1 by {
            if j < k - 1 {
                assert(s[j].0 > s[k - 1].0);
                assert(total(ts.take(k - 1), s[j].0 as int) == s[j].1);
            } else {
                assert forall|i: int| 0 <= i < k - 1 implies #[trigger] s[i].0 != s[k - 1].0 by {
                    assert(s[i].0 > s[k - 1].0);
                }
                assert(total(ts.take(k - 1), s[k - 1].0 as int) == 0);
            }
        }
        assert forall|x: int| (forall|j: int| 0 <= j < k ==> s[j].0 != x) implies #[trigger] total(
            ts.take(k),
            x,
        ) == 0 by {
            assert(s[k - 1].0 != x);
            assert(total(ts.take(k - 1), x) == 0);
        }
    }
}

pub open spec fn has_key(s: Seq<(u32, i128)>, x: int) -> bool {
    exists|j: int| 0 <= j < s.len() && s[j].0 == x
}

proof fn lemma_sorted_unique(a: Seq<(u32, i128)>, b: Seq<(u32, i128)>)
    requires
        descending(a),
        descending(b),
        forall|x: int| #![trigger has_key(a, x)] #![trigger has_key(b, x)] has_key(a, x) <==> has_key(b, x),
    ensures
        a.len() == b.len(),
        forall|i: int| 0 <= i < a.len() ==> #[trigger] a[i].0 == b[i].0,
    decreases a.len(),
{
    if a.len() == 0 {
        if b.len() > 0 {
            assert(has_key(b, b[0].0 as int));
        }
    } else {
        assert(has_key(a, a[0].0 as int));
        let jb = choose|j: int| 0 <= j < b.len() && b[j].0 == a[0].0;
        assert(has_key(b, b[0].0 as int));
        let ja = choose|j: int| 0 <= j < a.len() && a[j].0 == b[0].0;
        if jb > 0 {
            assert(b[0].0 > b[jb].0);
        }
        if ja > 0 {
            assert(a[0].0 > a[ja].0);
        }
        assert(a[0].0 == b[0].0);
        let a1 = a.drop_first();
        let b1 = b.drop_first();
        assert forall|x: int| #![trigger has_key(a1, x)] #![trigger has_key(b1, x)] has_key(a1, x) <==> has_key(b1, x) by {
            if has_key(a1, x) {
                let j = choose|j: int| 0 <= j < a1.len() && a1[j].0 == x;
                assert(a[j + 1].0 == x);
                assert(has_key(a, x));
                assert(a[0].0 > x);
                let k = choose|k: int| 0 <= k < b.len() && b[k].0 == x;
                assert(k != 0);
                assert(b1[k - 1].0 == x);
            }
            if has_key(b1, x) {
                let j = choose|j: int| 0 <= j < b1.len() && b1[j].0 == x;
                assert(b[j + 1].0 == x);
                assert(has_key(b, x));
                assert(b[0].0 > x);
                let k = choose|k: int| 0 <= k < a.len() && a[k].0 == x;
                assert(k != 0);
                assert(a1[k - 1].0 == x);
            }
        }
        lemma_sorted_unique(a1, b1);
        assert forall|i: int| 0 <= i < a.len() implies #[trigger] a[i].0 == b[i].0 by {
            if i > 0 {
                assert(a1[i - 1].0 == b1[i - 1].0);
            }
        }
    }
}

/// Two well-formed maps that hold the totals of the same terms are the same map.
pub proof fn lemma_totals_fix_the_map(m1: CoefficientMap, m2: CoefficientMap, ts: Seq<Term>)
    requires
        m1.sums_of(ts),
        m2.sums_of(ts),
    ensures
        m1@ == m2@,
{
    let a = m1@;
    let b = m2@;
    assert forall|x: int| #![trigger has_key(a, x)] #![trigger has_key(b, x)] has_key(a, x) <==> has_key(b, x) by {
        if has_key(a, x) {
            let j = choose|j: int| 0 <= j < a.len() && a[j].0 == x;
            assert(a[j].1 != 0);
            assert(total(ts, x) != 0);
        }
        if has_key(b, x) {
            let j = choose|j: int| 0 <= j < b.len() && b[j].0 == x;
            assert(b[j].1 != 0);
            assert(total(ts, x) != 0);
        }
    }
    lemma_sorted_unique(a, b);
    assert forall|i: int| 0 <= i < a.len() implies a[i] == b[i] by {
        assert(a[i].0 == b[i].0);
        assert(a[i].1 == total(ts, a[i].0 as int));
        assert(b[i].1 == total(ts, b[i].0 as int));
    }
    assert(a =~= b);
}


proof fn lemma_compact_terms_start(s: Seq<(u32, i128)>)
    requires
        s.len() > 0,
    ensures
        compact_terms(s).len() > 0,
        is_sign(compact_terms(s)[0]),
    decreases s.len(),
{
    lemma_compact_term_plain(s.last().0, s.last().1);
    if s.len() > 1 {
        lemma_compact_terms_start(s.drop_last());
    } else {
        assert(compact_terms(s.drop_last()) == Seq::<char>::empty());
        assert(compact_terms(s) =~= compact_term(s.last().0, s.last().1));
    }
}

/// The terms that the reduced form of `s` is read back into.
pub open spec fn read_back(s: Seq<(u32, i128)>) -> Seq<Term> {
    if s.len() == 0 {
        terms_of(seq![(0u32, 0i128)])
    } else {
        terms_of(s)
    }
}

proof fn lemma_read_back(s: Seq<(u32, i128)>)
    requires
        descending(s),
        forall|j: int| 0 <= j < s.len() ==> #[trigger] s[j].1 != 0,
        forall|j: int| 0 <= j < s.len() ==> #[trigger] s[j].1 != i128::MIN,
    ensures
        equation_terms(formula_text(s)) == Ok::<Seq<Term>, Fault>(read_back(s)),
        sums_fit(read_back(s)),
        holds_totals(s, read_back(s)),
{
    lemma_split_formula(s);
    let src = if s.len() == 0 {
        seq![(0u32, 0i128)]
    } else {
        s
    };
    let ts = terms_of(src);
    if s.len() == 0 {
        let t = compact_term(0, 0);
        lemma_magnitude_parts(0);
        assert(decimal(0) =~= seq!['0']);
        assert(t =~= seq!['+', '0']);
        assert(signed(seq!['0']) =~= t);
        assert(expression_of(formula_text(s)) == Ok::<Seq<char>, Fault>(t));
        lemma_compact_term_plain(0, 0);
        lemma_tokens_append(Seq::<char>::empty(), t, 0);
        assert(Seq::<char>::empty() + t =~= t);
        assert(tokens_from(Seq::<char>::empty(), 0) == Seq::<Seq<char>>::empty());
        assert(tokens_from(t, 0) =~= compacts_of(src));
    } else {
        let a = compact_terms(s);
        lemma_compact_terms_start(s);
        assert(signed(a) == a);
        assert(expression_of(formula_text(s)) == Ok::<Seq<char>, Fault>(a));
        lemma_tokens_compact(s);
    }
    lemma_parse_compact(src);
    assert(descending(src));
    assert forall|k: int, x: int| 0 <= k <= ts.len() implies i128::MIN <= #[trigger] total(
        ts.take(k),
        x,
    ) <= i128::MAX by {
        lemma_totals(src, k);
        if exists|j: int| 0 <= j < k && src[j].0 == x {
            let j = choose|j: int| 0 <= j < k && src[j].0 == x;
            assert(total(ts.take(k), src[j].0 as int) == src[j].1);
        }
    }
    lemma_totals(src, src.len() as int);
    assert(ts.take(src.len() as int) =~= ts);
    if s.len() == 0 {
        assert forall|x: int| #[trigger] total(ts, x) == 0 by {
            if x == 0 {
                assert(total(ts, src[0].0 as int) == src[0].1);
            }
        }
    } else {
        assert forall|x: int| #[trigger] total(ts, x) != 0 implies has_key(s, x) by {}
    }
}

/// Reducing the reduced form of an equation gives the same map back: the reduced form splits and
/// parses without fault, every running sum of its terms fits, and the one map that holds their
/// totals is the map that it was written from. A coefficient equal to the least `i128` is left
/// out, as no term can hold its magnitude.
pub proof fn lemma_reduced_form_reduces_to_itself(m: CoefficientMap)
    requires
        m.wf(),
        forall|j: int| 0 <= j < m@.len() ==> #[trigger] m@[j].1 != i128::MIN,
    ensures
        (equation_terms(formula_text(m@)) matches Ok(ts) && sums_fit(ts) && m.sums_of(ts) && forall|
            m2: CoefficientMap,
        | m2.sums_of(ts) ==> m2@ == m@),
{
    lemma_read_back(m@);
    let ts = read_back(m@);
    assert forall|m2: CoefficientMap| m2.sums_of(ts) implies m2@ == m@ by {
        lemma_totals_fix_the_map(m, m2, ts);
    }
}

} // verus!
