use vstd::prelude::*;
use crate::term::{Term, UNIT, FRACTION_DIGITS};
use crate::error::text_of;

verus! {

/// The sum of the coefficients of the terms with exponent `e`.
pub open spec fn total(terms: Seq<Term>, e: int) -> int
    decreases terms.len(),
{
    if terms.len() == 0 {
        0
    } else {
        total(terms.drop_last(), e) + if terms.last().exponent == e {
            terms.last().coefficient as int
        } else {
            0
        }
    }
}

/// Every running sum, for every exponent, fits in an `i128`.
pub open spec fn sums_fit(terms: Seq<Term>) -> bool {
    forall|k: int, e: int|
        0 <= k <= terms.len() ==> i128::MIN <= #[trigger] total(terms.take(k), e) <= i128::MAX
}

/// Exponents strictly descending.
pub open spec fn descending(s: Seq<(u32, i128)>) -> bool {
    forall|i: int, j: int| 0 <= i < j < s.len() ==> s[i].0 > s[j].0
}

/// Each entry holds the total of its exponent, and every exponent with a total other than zero
/// has an entry.
pub open spec fn holds_totals(s: Seq<(u32, i128)>, terms: Seq<Term>) -> bool {
    &&& forall|j: int| 0 <= j < s.len() ==> s[j].1 == total(terms, #[trigger] s[j].0 as int)
    &&& forall|e: int|
        #[trigger] total(terms, e) != 0 ==> exists|j: int| 0 <= j < s.len() && s[j].0 == e
}

/// A sparse polynomial: exponent and coefficient (in units) of each non-zero term, highest
/// exponent first.
#[derive(Debug)]
pub struct CoefficientMap {
    entries: Vec<(u32, i128)>,
}

impl CoefficientMap {
    pub closed spec fn view(&self) -> Seq<(u32, i128)> {
        self.entries@
    }

    /// Exponents strictly descending, no coefficient zero.
    pub open spec fn wf(&self) -> bool {
        &&& descending(self@)
        &&& forall|j: int| 0 <= j < self@.len() ==> #[trigger] self@[j].1 != 0
    }

    /// The map holds exactly the non-zero totals of `terms`.
    pub open spec fn sums_of(&self, terms: Seq<Term>) -> bool {
        self.wf() && holds_totals(self@, terms)
    }

    pub fn len(&self) -> (r: usize)
        ensures
            r == self@.len(),
    {
        self.entries.len()
    }

    /// The coefficient of the power `e`, in units; zero where the map has no entry for it.
    pub fn coefficient(&self, e: u32) -> (r: i128)
        requires
            self.wf(),
        ensures
            forall|j: int| 0 <= j < self@.len() && self@[j].0 == e ==> r == self@[j].1,
            (forall|j: int| 0 <= j < self@.len() ==> self@[j].0 != e) ==> r == 0,
    {
        let mut j: usize = 0;
        while j < self.entries.len()
            invariant
                j <= self@.len(),
                forall|k: int| 0 <= k < j ==> self@[k].0 != e,
                self.wf(),
            decreases self@.len() - j,
        {
            if self.entries[j].0 == e {
                assert forall|k: int| 0 <= k < self@.len() && self@[k].0 == e implies k == j by {
                    if k > j {
                        assert(self@[j as int].0 > self@[k].0);
                    }
                }
                return self.entries[j].1;
            }
            j += 1;
        }
        0
    }

    /// The exponent and coefficient of the `i`-th entry, highest exponent first.
    pub fn entry(&self, i: usize) -> (r: (u32, i128))
        requires
            i < self@.len(),
        ensures
            r == self@[i as int],
    {
        self.entries[i]
    }
}

pub open spec fn nonzero(x: (u32, i128)) -> bool {
    x.1 != 0
}

/// The entries of `v` whose coefficient is not zero, in their order.
fn drop_zeros(v: &Vec<(u32, i128)>) -> (kept: Vec<(u32, i128)>)
    requires
        descending(v@),
    ensures
        descending(kept@),
        kept@ == v@.filter(|x: (u32, i128)| nonzero(x)),
{
    let mut kept: Vec<(u32, i128)> = Vec::new();
    let mut k: usize = 0;
    while k < v.len()
        invariant
            k <= v.len(),
            descending(v@),
            descending(kept@),
            kept@ == v@.take(k as int).filter(|x: (u32, i128)| nonzero(x)),
            kept@.len() > 0 ==> k > 0 && kept@.last().0 >= v@[k - 1].0,
        decreases v.len() - k,
    {
        proof {
            reveal(Seq::filter);
            assert(v@.take(k + 1).drop_last() =~= v@.take(k as int));
        }
        if v[k].1 != 0 {
            kept.push(v[k]);
        }
        k += 1;
    }
    assert(v@.take(k as int) =~= v@);
    kept
}

/// Sums the terms into a map from exponent to coefficient and drops the coefficients that come
/// to zero; `None` exactly where a running sum leaves the range of `i128`.
pub fn accumulate(terms: &Vec<Term>) -> (r: Option<CoefficientMap>)
    ensures
        r is Some <==> sums_fit(terms@),
        r matches Some(m) ==> m.sums_of(terms@),
{
    let mut v: Vec<(u32, i128)> = Vec::new();
    let mut i: usize = 0;
    assert forall|e: int| #[trigger] total(terms@.take(0), e) == 0 by {}
    while i < terms.len()
        invariant
            i <= terms.len(),
            descending(v@),
            holds_totals(v@, terms@.take(i as int)),
            forall|k: int, e: int|
                0 <= k <= i ==> i128::MIN <= #[trigger] total(terms@.take(k), e) <= i128::MAX,
        decreases terms.len() - i,
    {
        let t = terms[i];
        let e = t.exponent;
        let ghost before = terms@.take(i as int);
        let ghost after = terms@.take(i + 1);
        assert(after.drop_last() =~= before);
        assert(forall|x: int| #[trigger] total(after, x) == total(before, x) + if x == e {
            t.coefficient as int
        } else {
            0
        });
        let mut p: usize = 0;
        while p < v.len() && v[p].0 > e
            invariant
                p <= v.len(),
                forall|j: int| 0 <= j < p ==> v@[j].0 > e,
            decreases v.len() - p,
        {
            p += 1;
        }
        let ghost old_v = v@;
        if p < v.len() && v[p].0 == e {
            let cur = v[p].1;
            let c = t.coefficient;
            if (c > 0 && cur > i128::MAX - c) || (c < 0 && cur < i128::MIN - c) {
                assert(!(i128::MIN <= total(terms@.take(i + 1), e as int) <= i128::MAX));
                return None;
            }
            v.set(p, (e, cur + c));
            assert(v@[p as int].0 == e);
            assert forall|j: int| 0 <= j < v@.len() implies v@[j].1 == total(
                after,
                #[trigger] v@[j].0 as int,
            ) by {
                if j != p {
                    assert(old_v[j].0 != e);
                }
            }
            assert forall|x: int| #[trigger] total(after, x) != 0 implies exists|j: int|
                0 <= j < v@.len() && v@[j].0 == x by {
                if x != e {
                    let j = choose|j: int| 0 <= j < old_v.len() && old_v[j].0 == x;
                    assert(v@[j].0 == x);
                } else {
                    assert(v@[p as int].0 == x);
                }
            }
        } else {
            assert forall|j: int| 0 <= j < old_v.len() implies old_v[j].0 != e by {
                if j > p {
                    assert(old_v[j].0 < old_v[p as int].0);
                }
            }
            assert(total(before, e as int) == 0);
            v.insert(p, (e, t.coefficient));
            assert forall|a: int, b: int| 0 <= a < b < v@.len() implies v@[a].0 > v@[b].0 by {
                if a < p && b > p {
                    assert(old_v[a].0 > e);
                }
            }
            assert forall|j: int| 0 <= j < v@.len() implies v@[j].1 == total(
                after,
                #[trigger] v@[j].0 as int,
            ) by {
                if j < p {
                    assert(v@[j] == old_v[j]);
                } else if j > p {
                    assert(v@[j] == old_v[j - 1]);
                }
            }
            assert forall|x: int| #[trigger] total(after, x) != 0 implies exists|j: int|
                0 <= j < v@.len() && v@[j].0 == x by {
                if x != e {
                    let j = choose|j: int| 0 <= j < old_v.len() && old_v[j].0 == x;
                    if j < p {
                        assert(v@[j].0 == x);
                    } else {
                        assert(v@[j + 1].0 == x);
                    }
                } else {
                    assert(v@[p as int].0 == x);
                }
            }
        }
        assert(i128::MIN <= total(after, e as int) <= i128::MAX) by {
            let j = choose|j: int| 0 <= j < v@.len() && v@[j].0 == e;
            if total(after, e as int) != 0 {
                assert(v@[j].1 == total(after, v@[j].0 as int));
            }
        }
        assert forall|k: int, x: int| 0 <= k <= i + 1 implies i128::MIN <= #[trigger] total(
            terms@.take(k),
            x,
        ) <= i128::MAX by {
            if k == i + 1 {
                assert(terms@.take(k) == after);
                if x != e {
                    assert(total(before, x) == total(terms@.take(i as int), x));
                }
            }
        }
        i += 1;
    }
    assert(terms@.take(i as int) =~= terms@);
    let kept = drop_zeros(&v);
    assert forall|x: int| #[trigger] total(terms@, x) != 0 implies exists|j: int|
        0 <= j < kept@.len() && kept@[j].0 == x by {
        let a = choose|a: int| 0 <= a < v@.len() && v@[a].0 == x;
        assert(v@[a].1 == total(terms@, v@[a].0 as int));
        v@.lemma_filter_contains(|x: (u32, i128)| nonzero(x), a);
        let j = choose|j: int| 0 <= j < kept@.len() && #[trigger] kept@[j] == v@[a];
        assert(kept@[j].0 == x);
    }
    assert forall|j: int| 0 <= j < kept@.len() implies kept@[j].1 == total(
        terms@,
        #[trigger] kept@[j].0 as int,
    ) by {
        assert(kept@.contains(kept@[j]));
        v@.lemma_filter_contains_rev(|x: (u32, i128)| nonzero(x), kept@[j]);
        let a = choose|a: int| 0 <= a < v@.len() && v@[a] == kept@[j];
        assert(v@[a].1 == total(terms@, v@[a].0 as int));
    }
    assert forall|j: int| 0 <= j < kept@.len() implies #[trigger] kept@[j].1 != 0 by {
        v@.lemma_filter_pred(|x: (u32, i128)| nonzero(x), j);
    }
    Some(CoefficientMap { entries: kept })
}


/// The highest exponent of the map, or zero for the empty map.
pub fn max_exponent(coefficients: &CoefficientMap) -> (r: u32)
    requires
        coefficients.wf(),
    ensures
        coefficients@.len() == 0 ==> r == 0,
        coefficients@.len() > 0 ==> exists|j: int|
            0 <= j < coefficients@.len() && coefficients@[j].0 == r,
        forall|j: int| 0 <= j < coefficients@.len() ==> coefficients@[j].0 <= r,
{
    if coefficients.entries.len() == 0 {
        0
    } else {
        coefficients.entries[0].0
    }
}

/// The degree of the equation in decimal: its highest exponent, or `0` for the empty map.
pub fn degree(coefficients: &CoefficientMap) -> (r: String)
    requires
        coefficients.wf(),
    ensures
        exists|d: u32|
            r@ == decimal(d as nat) && (coefficients@.len() == 0 ==> d == 0) && (coefficients@.len()
                > 0 ==> d == coefficients@[0].0) && forall|j: int|
                0 <= j < coefficients@.len() ==> #[trigger] coefficients@[j].0 <= d,
{
    let d = max_exponent(coefficients);
    assert(coefficients@.len() > 0 ==> d == coefficients@[0].0) by {
        if coefficients@.len() > 0 {
            let j = choose|j: int| 0 <= j < coefficients@.len() && coefficients@[j].0 == d;
            if j > 0 {
                assert(coefficients@[0].0 > coefficients@[j].0);
            }
        }
    }
    let mut out: Vec<char> = Vec::new();
    push_decimal(d as u128, &mut out);
    assert(out@ =~= decimal(d as nat));
    text_of(&out)
}

pub open spec fn digit_char(d: nat) -> char {
    ((d + 48) as u8) as char
}

/// The decimal digits of `q`, without leading zeros.
pub open spec fn decimal(q: nat) -> Seq<char>
    decreases q,
{
    if q < 10 {
        seq![digit_char(q)]
    } else {
        decimal(q / 10).push(digit_char(q % 10))
    }
}

/// The last `w` decimal digits of `q`, with leading zeros.
pub open spec fn padded(q: nat, w: nat) -> Seq<char>
    decreases w,
{
    if w == 0 {
        seq![]
    } else {
        padded(q / 10, (w - 1) as nat).push(digit_char(q % 10))
    }
}

/// `s` without its trailing zeros.
pub open spec fn trim_zeros(s: Seq<char>) -> Seq<char>
    decreases s.len(),
{
    if s.len() > 0 && s.last() == '0' {
        trim_zeros(s.drop_last())
    } else {
        s
    }
}

/// A magnitude of `u` units as a decimal: the whole part, then, where there is a fraction, a
/// point and the fraction's digits without trailing zeros.
pub open spec fn magnitude_text(u: nat) -> Seq<char> {
    decimal(u / (UNIT as nat)) + if u % (UNIT as nat) == 0 {
        seq![]
    } else {
        seq!['.'] + trim_zeros(padded(u % (UNIT as nat), FRACTION_DIGITS as nat))
    }
}

pub open spec fn abs(c: int) -> nat {
    if c < 0 {
        (-c) as nat
    } else {
        c as nat
    }
}

/// One term of the reduced form: its sign, a space, its magnitude, and `x^e` (`x` for the first
/// power, nothing for the zeroth) after a space.
pub open spec fn term_text(e: u32, c: i128) -> Seq<char> {
    seq![if c < 0 {
        '-'
    } else {
        '+'
    }, ' '] + magnitude_text(abs(c as int)) + if e == 0 {
        seq![]
    } else if e == 1 {
        seq![' ', 'x']
    } else {
        seq![' ', 'x', '^'] + decimal(e as nat)
    }
}

/// The terms, each after the one before and a space.
pub open spec fn terms_text(s: Seq<(u32, i128)>) -> Seq<char>
    decreases s.len(),
{
    if s.len() == 0 {
        seq![]
    } else if s.len() == 1 {
        term_text(s[0].0, s[0].1)
    } else {
        terms_text(s.drop_last()) + seq![' '] + term_text(s.last().0, s.last().1)
    }
}

/// The reduced form: the terms followed by `= 0`, or `0 = 0` where there is none.
pub open spec fn formula_text(s: Seq<(u32, i128)>) -> Seq<char> {
    if s.len() == 0 {
        seq!['0', ' ', '=', ' ', '0']
    } else {
        terms_text(s) + seq![' ', '=', ' ', '0']
    }
}

fn push_decimal(q: u128, out: &mut Vec<char>)
    ensures
        final(out)@ == old(out)@ + decimal(q as nat),
    decreases q,
{
    if q >= 10 {
        push_decimal(q / 10, out);
    }
    out.push(((q % 10) as u8 + 48) as char);
}

fn push_padded(q: u128, w: usize, out: &mut Vec<char>)
    ensures
        final(out)@ == old(out)@ + padded(q as nat, w as nat),
    decreases w,
{
    if w > 0 {
        push_padded(q / 10, w - 1, out);
        out.push(((q % 10) as u8 + 48) as char);
    }
}

fn push_magnitude(u: u128, out: &mut Vec<char>)
    ensures
        final(out)@ == old(out)@ + magnitude_text(u as nat),
{
    let unit = UNIT as u128;
    push_decimal(u / unit, out);
    let ghost whole_part = out@;
    if u % unit != 0 {
        let mut fraction: Vec<char> = Vec::new();
        push_padded(u % unit, FRACTION_DIGITS, &mut fraction);
        assert(fraction@ =~= padded((u % unit) as nat, FRACTION_DIGITS as nat));
        while fraction.len() > 0 && fraction[fraction.len() - 1] == '0'
            invariant
                trim_zeros(fraction@) == trim_zeros(padded((u % unit) as nat, FRACTION_DIGITS as nat)),
            decreases fraction.len(),
        {
            fraction.pop();
        }
        out.push('.');
        let mut i: usize = 0;
        while i < fraction.len()
            invariant
                i <= fraction.len(),
                out@ == whole_part + seq!['.'] + fraction@.take(i as int),
            decreases fraction.len() - i,
        {
            out.push(fraction[i]);
            i += 1;
            assert(out@ =~= whole_part + seq!['.'] + fraction@.take(i as int));
        }
        assert(fraction@.take(i as int) =~= fraction@);
        assert(trim_zeros(fraction@) == fraction@);
        assert(out@ =~= old(out)@ + magnitude_text(u as nat));
    } else {
        assert(out@ =~= old(out)@ + magnitude_text(u as nat));
    }
}

fn push_term(e: u32, c: i128, out: &mut Vec<char>)
    ensures
        final(out)@ == old(out)@ + term_text(e, c),
{
    out.push(if c < 0 {
        '-'
    } else {
        '+'
    });
    out.push(' ');
    let u: u128 = if c < 0 {
        (-(c + 1)) as u128 + 1
    } else {
        c as u128
    };
    push_magnitude(u, out);
    let ghost mid = out@;
    if e == 1 {
        out.push(' ');
        out.push('x');
    } else if e > 1 {
        out.push(' ');
        out.push('x');
        out.push('^');
        push_decimal(e as u128, out);
    }
    assert(out@ =~= old(out)@ + term_text(e, c));
}

/// The reduced form of the equation: each term of the map, highest exponent first, then `= 0`.
pub fn formula(coefficients: &CoefficientMap) -> (r: String)
    ensures
        r@ == formula_text(coefficients@),
{
    let s = &coefficients.entries;
    let mut out: Vec<char> = Vec::new();
    if s.len() == 0 {
        out.push('0');
        out.push(' ');
        out.push('=');
        out.push(' ');
        out.push('0');
        assert(out@ =~= formula_text(coefficients@));
        return text_of(&out);
    }
    let mut i: usize = 0;
    while i < s.len()
        invariant
            i <= s.len(),
            s.len() > 0,
            out@ == terms_text(s@.take(i as int)),
        decreases s.len() - i,
    {
        let ghost before = out@;
        assert(s@.take(i + 1).drop_last() =~= s@.take(i as int));
        if i > 0 {
            out.push(' ');
        }
        push_term(s[i].0, s[i].1, &mut out);
        proof {
            if i == 0 {
                assert(before =~= seq![]);
                assert(out@ =~= terms_text(s@.take(1)));
            } else {
                assert(out@ =~= terms_text(s@.take(i + 1)));
            }
        }
        i += 1;
    }
    assert(s@.take(i as int) =~= s@);
    out.push(' ');
    out.push('=');
    out.push(' ');
    out.push('0');
    assert(out@ =~= formula_text(coefficients@));
    text_of(&out)
}

} // verus!
