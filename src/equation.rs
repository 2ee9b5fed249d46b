use vstd::prelude::*;
use crate::error::{EquationError, Fault, text_of};
use crate::lexer::{
    normalize,
    split_sides,
    combined,
    tokens_from,
    views,
    normalize_text,
    split_equation,
    combine_sides,
    tokenize,
};
use crate::poly::{CoefficientMap, sums_fit, accumulate, max_exponent};
use crate::term::{Term, parse_term_spec, parse_term};

verus! {

/// A parsed term, with the check that no exponent stands without the variable.
pub open spec fn checked_term(token: Seq<char>) -> Result<Term, Fault> {
    match parse_term_spec(token) {
        Err(f) => Err(f),
        Ok(t) => if !t.has_variable && t.exponent > 0 {
            Err(Fault::InvalidTermFormat(token))
        } else {
            Ok(t)
        },
    }
}

/// The terms of the tokens in order, or the fault of the first token that fails.
pub open spec fn parse_tokens(tokens: Seq<Seq<char>>) -> Result<Seq<Term>, Fault>
    decreases tokens.len(),
{
    if tokens.len() == 0 {
        Ok(seq![])
    } else {
        match parse_tokens(tokens.drop_last()) {
            Err(f) => Err(f),
            Ok(ts) => match checked_term(tokens.last()) {
                Err(f) => Err(f),
                Ok(t) => Ok(ts.push(t)),
            },
        }
    }
}

proof fn lemma_fault_stays(s: Seq<Seq<char>>, k: int)
    requires
        0 <= k <= s.len(),
        parse_tokens(s.take(k)) is Err,
    ensures
        parse_tokens(s) == parse_tokens(s.take(k)),
    decreases s.len(),
{
    if k == s.len() {
        assert(s.take(k) =~= s);
    } else {
        assert(s.drop_last().take(k) =~= s.take(k));
        lemma_fault_stays(s.drop_last(), k);
    }
}

/// The equation as one signed expression equal to zero.
pub open spec fn expression_of(input: Seq<char>) -> Result<Seq<char>, Fault> {
    match split_sides(normalize(input)) {
        Err(f) => Err(f),
        Ok((left, right)) => Ok(combined(left, right)),
    }
}

/// The terms of the equation, all moved to the left side.
pub open spec fn equation_terms(input: Seq<char>) -> Result<Seq<Term>, Fault> {
    match expression_of(input) {
        Err(f) => Err(f),
        Ok(x) => parse_tokens(tokens_from(x, 0)),
    }
}

/// Reduces an equation to the map of its non-zero coefficients, all terms on the left side.
pub fn reduce(input: &str) -> (r: Result<CoefficientMap, EquationError>)
    ensures
        match (r, equation_terms(input@)) {
            (Ok(m), Ok(ts)) => sums_fit(ts) && m.sums_of(ts),
            (Err(e), Ok(ts)) => !sums_fit(ts) && (expression_of(input@) matches Ok(x) && e@
                == Fault::NumberOutOfRange(x)),
            (Err(e), Err(f)) => e@ == f,
            _ => false,
        },
{
    let text = normalize_text(input);
    let (left, right) = match split_equation(&text) {
        Err(e) => {
            return Err(e);
        },
        Ok(sides) => sides,
    };
    let expression = combine_sides(left, right);
    let tokens = tokenize(&expression);
    assert(expression_of(input@) == Ok::<Seq<char>, Fault>(expression@));
    assert(equation_terms(input@) == parse_tokens(views(tokens@)));
    let mut terms: Vec<Term> = Vec::new();
    let mut i: usize = 0;
    while i < tokens.len()
        invariant
            i <= tokens.len(),
            parse_tokens(views(tokens@).take(i as int)) == Ok::<Seq<Term>, Fault>(terms@),
            expression_of(input@) == Ok::<Seq<char>, Fault>(expression@),
            equation_terms(input@) == parse_tokens(views(tokens@)),
        decreases tokens.len() - i,
    {
        assert(views(tokens@).take(i + 1).drop_last() =~= views(tokens@).take(i as int));
        assert(views(tokens@).take(i + 1).last() == tokens@[i as int]@);
        let t = match parse_term(&tokens[i]) {
            Err(e) => {
                proof {
                    assert(checked_term(tokens@[i as int]@) == Err::<Term, Fault>(e@));
                    assert(parse_tokens(views(tokens@).take(i + 1)) == Err::<Seq<Term>, Fault>(
                        e@,
                    ));
                    lemma_fault_stays(views(tokens@), i + 1);
                }
                return Err(e);
            },
            Ok(t) => t,
        };
        if !t.has_variable && t.exponent > 0 {
            proof {
                lemma_fault_stays(views(tokens@), i + 1);
            }
            return Err(EquationError::InvalidTermFormat(text_of(&tokens[i])));
        }
        terms.push(t);
        i += 1;
    }
    assert(views(tokens@).take(i as int) =~= views(tokens@));
    match accumulate(&terms) {
        None => Err(EquationError::NumberOutOfRange(text_of(&expression))),
        Some(m) => Ok(m),
    }
}

/// What the degree of a reduced equation leaves to solve.
#[derive(Clone, Copy, Debug, PartialEq, Eq)]
pub enum Outcome {
    /// Every term cancelled: nothing is reported beyond the degree.
    Cancelled,
    /// Only a non-zero constant is left: no value solves the equation.
    NoSolution,
    /// Degree one: one root.
    Linear,
    /// Degree two: roots by the discriminant.
    Quadratic,
    /// Degree above two: not solved.
    Unsolvable,
}

/// Sorts a reduced equation by its degree.
pub fn classify(coefficients: &CoefficientMap) -> (r: Outcome)
    requires
        coefficients.wf(),
    ensures
        coefficients@.len() == 0 <==> r == Outcome::Cancelled,
        coefficients@.len() > 0 ==> (r == Outcome::NoSolution <==> coefficients@[0].0 == 0),
        coefficients@.len() > 0 ==> (r == Outcome::Linear <==> coefficients@[0].0 == 1),
        coefficients@.len() > 0 ==> (r == Outcome::Quadratic <==> coefficients@[0].0 == 2),
        coefficients@.len() > 0 ==> (r == Outcome::Unsolvable <==> coefficients@[0].0 > 2),
{
    if coefficients.len() == 0 {
        return Outcome::Cancelled;
    }
    let d = max_exponent(coefficients);
    assert(d == coefficients@[0].0) by {
        let j = choose|j: int| 0 <= j < coefficients@.len() && coefficients@[j].0 == d;
        if j > 0 {
            assert(coefficients@[0].0 > coefficients@[j].0);
        }
    }
    if d == 0 {
        Outcome::NoSolution
    } else if d == 1 {
        Outcome::Linear
    } else if d == 2 {
        Outcome::Quadratic
    } else {
        Outcome::Unsolvable
    }
}

} // verus!
