use vstd::prelude::*;
use vstd::string::*;
use crate::error::{EquationError, Fault};

verus! {

/// `+` or `-`.
pub open spec fn is_sign(c: char) -> bool {
    c == '+' || c == '-'
}

/// The characters that Unicode gives the White_Space property.
pub open spec fn is_space(c: char) -> bool {
    ('\u{9}' <= c && c <= '\u{d}') || c == ' ' || c == '\u{85}' || c == '\u{a0}' || c == '\u{1680}'
        || ('\u{2000}' <= c && c <= '\u{200a}') || c == '\u{2028}' || c == '\u{2029}' || c
        == '\u{202f}' || c == '\u{205f}' || c == '\u{3000}'
}

/// An upper-case ASCII letter becomes its lower-case form; every other character stays.
pub open spec fn lower(c: char) -> char {
    if 'A' <= c && c <= 'Z' {
        ((c as u8) + 32) as char
    } else {
        c
    }
}

/// The equation text without white space, in lower case.
pub open spec fn normalize(s: Seq<char>) -> Seq<char>
    decreases s.len(),
{
    if s.len() == 0 {
        seq![]
    } else if is_space(s.last()) {
        normalize(s.drop_last())
    } else {
        normalize(s.drop_last()).push(lower(s.last()))
    }
}

pub fn is_space_char(c: char) -> (r: bool)
    ensures
        r == is_space(c),
{
    ('\u{9}' <= c && c <= '\u{d}') || c == ' ' || c == '\u{85}' || c == '\u{a0}' || c == '\u{1680}'
        || ('\u{2000}' <= c && c <= '\u{200a}') || c == '\u{2028}' || c == '\u{2029}' || c
        == '\u{202f}' || c == '\u{205f}' || c == '\u{3000}'
}

pub fn lower_char(c: char) -> (r: char)
    ensures
        r == lower(c),
{
    if 'A' <= c && c <= 'Z' {
        ((c as u8) + 32) as char
    } else {
        c
    }
}

/// Removes white space and lowers the case of the equation text.
pub fn normalize_text(input: &str) -> (r: Vec<char>)
    ensures
        r@ == normalize(input@),
{
    let n = input.unicode_len();
    let mut out: Vec<char> = Vec::new();
    let mut i: usize = 0;
    while i < n
        invariant
            n == input@.len(),
            i <= n,
            out@ == normalize(input@.take(i as int)),
        decreases n - i,
    {
        let c = input.get_char(i);
        assert(input@.take(i + 1).drop_last() =~= input@.take(i as int));
        if !is_space_char(c) {
            out.push(lower_char(c));
        }
        i += 1;
    }
    assert(input@.take(n as int) =~= input@);
    out
}


/// How many `=` the text holds.
pub open spec fn count_equals(s: Seq<char>) -> nat
    decreases s.len(),
{
    if s.len() == 0 {
        0
    } else {
        count_equals(s.drop_last()) + if s.last() == '=' {
            1nat
        } else {
            0nat
        }
    }
}

/// The index of the first `=` at or after `i`, or the length when there is none.
pub open spec fn first_equals_from(s: Seq<char>, i: int) -> int
    decreases s.len() - i,
{
    if i < 0 || i >= s.len() {
        s.len() as int
    } else if s[i] == '=' {
        i
    } else {
        first_equals_from(s, i + 1)
    }
}

/// The two sides of a normalized equation: it must not be empty and must hold exactly one `=`.
pub open spec fn split_sides(s: Seq<char>) -> Result<(Seq<char>, Seq<char>), Fault> {
    if s.len() == 0 {
        Err(Fault::EmptyInput)
    } else if count_equals(s) != 1 {
        Err(Fault::MalformedEquation)
    } else {
        let p = first_equals_from(s, 0);
        Ok((s.take(p), s.skip(p + 1)))
    }
}

fn copy_range(s: &Vec<char>, from: usize, to: usize) -> (r: Vec<char>)
    requires
        from <= to <= s.len(),
    ensures
        r@ == s@.subrange(from as int, to as int),
{
    let mut out: Vec<char> = Vec::new();
    let mut k = from;
    while k < to
        invariant
            from <= k <= to <= s.len(),
            out@ == s@.subrange(from as int, k as int),
        decreases to - k,
    {
        out.push(s[k]);
        k += 1;
        assert(out@ =~= s@.subrange(from as int, k as int));
    }
    out
}

/// Splits normalized equation text at its `=` into the left and the right side.
pub fn split_equation(s: &Vec<char>) -> (r: Result<(Vec<char>, Vec<char>), EquationError>)
    ensures
        match (r, split_sides(s@)) {
            (Ok((a, b)), Ok((x, y))) => a@ == x && b@ == y,
            (Err(e), Err(f)) => e@ == f,
            _ => false,
        },
{
    let n = s.len();
    if n == 0 {
        return Err(EquationError::EmptyInput);
    }
    let mut count: usize = 0;
    let mut p: usize = 0;
    let mut i: usize = 0;
    while i < n
        invariant
            n == s.len(),
            i <= n,
            count == count_equals(s@.take(i as int)),
            count <= i,
            count == 0 ==> first_equals_from(s@, 0) == first_equals_from(s@, i as int),
            count > 0 ==> p < i && first_equals_from(s@, 0) == p,
        decreases n - i,
    {
        assert(s@.take(i + 1).drop_last() =~= s@.take(i as int));
        if s[i] == '=' {
            if count == 0 {
                p = i;
            }
            count += 1;
        }
        i += 1;
    }
    assert(s@.take(n as int) =~= s@);
    if count != 1 {
        return Err(EquationError::MalformedEquation);
    }
    let left = copy_range(s, 0, p);
    let right = copy_range(s, p + 1, n);
    proof {
        assert(left@ =~= s@.take(p as int));
        assert(right@ =~= s@.skip(p + 1));
    }
    Ok((left, right))
}

/// Exchanges `+` and `-`; every other character stays.
pub open spec fn flip(c: char) -> char {
    if c == '+' {
        '-'
    } else if c == '-' {
        '+'
    } else {
        c
    }
}

/// Reverses every sign of the expression: all its terms change sides of zero.
pub fn reverse_signs(expression: &Vec<char>) -> (r: Vec<char>)
    ensures
        r@ == expression@.map_values(|c: char| flip(c)),
{
    let mut out: Vec<char> = Vec::new();
    let mut i: usize = 0;
    while i < expression.len()
        invariant
            i <= expression.len(),
            out@ == expression@.take(i as int).map_values(|c: char| flip(c)),
        decreases expression.len() - i,
    {
        let c = expression[i];
        let f = if c == '+' {
            '-'
        } else if c == '-' {
            '+'
        } else {
            c
        };
        out.push(f);
        i += 1;
        assert(out@ =~= expression@.take(i as int).map_values(|c: char| flip(c)));
    }
    assert(expression@.take(i as int) =~= expression@);
    out
}

/// The side with an explicit leading sign: `+` is put in front where none stands.
pub open spec fn signed(s: Seq<char>) -> Seq<char> {
    if s.len() > 0 && is_sign(s[0]) {
        s
    } else {
        seq!['+'] + s
    }
}

/// `left - right` as one expression whose every term carries a sign; a right side of `0` moves
/// nothing.
pub open spec fn combined(left: Seq<char>, right: Seq<char>) -> Seq<char> {
    if right == seq!['0'] {
        signed(left)
    } else {
        signed(left) + signed(right).map_values(|c: char| flip(c))
    }
}

fn with_sign(s: Vec<char>) -> (r: Vec<char>)
    ensures
        r@ == signed(s@),
{
    if s.len() > 0 && (s[0] == '+' || s[0] == '-') {
        s
    } else {
        let mut out: Vec<char> = Vec::new();
        out.push('+');
        let mut i: usize = 0;
        while i < s.len()
            invariant
                i <= s.len(),
                out@ == seq!['+'] + s@.take(i as int),
            decreases s.len() - i,
        {
            out.push(s[i]);
            i += 1;
            assert(out@ =~= seq!['+'] + s@.take(i as int));
        }
        assert(s@.take(i as int) =~= s@);
        out
    }
}

/// Moves every term of the right side to the left side.
pub fn combine_sides(left: Vec<char>, right: Vec<char>) -> (r: Vec<char>)
    ensures
        r@ == combined(left@, right@),
{
    let mut out = with_sign(left);
    if right.len() == 1 && right[0] == '0' {
        assert(right@ =~= seq!['0']);
        return out;
    }
    assert(right@ != seq!['0']);
    let flipped = reverse_signs(&with_sign(right));
    let ghost start = out@;
    let mut i: usize = 0;
    while i < flipped.len()
        invariant
            i <= flipped.len(),
            out@ == start + flipped@.take(i as int),
        decreases flipped.len() - i,
    {
        out.push(flipped[i]);
        i += 1;
        assert(out@ =~= start + flipped@.take(i as int));
    }
    assert(flipped@.take(i as int) =~= flipped@);
    out
}


/// The end of the run of characters other than signs that starts at `j`.
pub open spec fn run_end(s: Seq<char>, j: int) -> int
    decreases s.len() - j,
{
    if 0 <= j < s.len() && !is_sign(s[j]) {
        run_end(s, j + 1)
    } else {
        j
    }
}

/// The terms of `s` from index `i` on, left to right: each is an optional sign followed by the
/// longest non-empty run without a sign. A sign that no such run follows belongs to no term.
pub open spec fn tokens_from(s: Seq<char>, i: int) -> Seq<Seq<char>>
    decreases s.len() - i,
{
    if i < 0 || i >= s.len() {
        seq![]
    } else {
        let start = if is_sign(s[i]) {
            i + 1
        } else {
            i
        };
        let end = run_end(s, start);
        if start < end <= s.len() {
            seq![s.subrange(i, end)] + tokens_from(s, end)
        } else {
            tokens_from(s, i + 1)
        }
    }
}

/// The character sequences that a vector of character vectors holds.
pub open spec fn views(v: Seq<Vec<char>>) -> Seq<Seq<char>> {
    v.map_values(|t: Vec<char>| t@)
}

/// Splits a signed expression into its terms, left to right.
pub fn tokenize(expression: &Vec<char>) -> (r: Vec<Vec<char>>)
    ensures
        views(r@) == tokens_from(expression@, 0),
{
    let n = expression.len();
    let mut out: Vec<Vec<char>> = Vec::new();
    let mut i: usize = 0;
    while i < n
        invariant
            n == expression.len(),
            i <= n,
            tokens_from(expression@, 0) == views(out@) + tokens_from(expression@, i as int),
        decreases n - i,
    {
        let start = if expression[i] == '+' || expression[i] == '-' {
            i + 1
        } else {
            i
        };
        let mut end = start;
        while end < n && expression[end] != '+' && expression[end] != '-'
            invariant
                n == expression.len(),
                start <= end <= n,
                run_end(expression@, start as int) == run_end(expression@, end as int),
            decreases n - end,
        {
            end += 1;
        }
        if start < end {
            let tok = copy_range(expression, i, end);
            let ghost before = out@;
            out.push(tok);
            assert(views(out@) =~= views(before).push(tok@));
            assert(views(out@) + tokens_from(expression@, end as int) =~= views(before) + (
            seq![tok@] + tokens_from(expression@, end as int)));
            i = end;
        } else {
            i += 1;
        }
    }
    assert(views(out@) + tokens_from(expression@, i as int) =~= views(out@));
    out
}

} // verus!
