use computor::lexer::{combine_sides, normalize_text, split_equation, tokenize};
use computor::{classify, degree, formula, max_exponent, parse_term, reduce, reverse_signs};
use computor::{EquationError, Outcome, UNIT};

fn chars(s: &str) -> Vec<char> {
    s.chars().collect()
}

#[test]
fn quadratic_reduced_form() {
    let m = reduce("5 * x^2 + 4 * x = 4").unwrap();
    assert_eq!(formula(&m), "+ 5 x^2 + 4 x - 4 = 0");
    assert_eq!(degree(&m), "2");
    assert_eq!(max_exponent(&m), 2);
    assert_eq!(classify(&m), Outcome::Quadratic);
    assert_eq!(m.coefficient(2), 5 * UNIT);
    assert_eq!(m.coefficient(1), 4 * UNIT);
    assert_eq!(m.coefficient(0), -4 * UNIT);
    let a = m.coefficient(2) as f64 / UNIT as f64;
    let b = m.coefficient(1) as f64 / UNIT as f64;
    let c = m.coefficient(0) as f64 / UNIT as f64;
    let delta = b * b - 4.0 * a * c;
    assert_eq!(delta, 96.0);
    let root1 = (-b + delta.sqrt()) / (2.0 * a);
    let root2 = (-b - delta.sqrt()) / (2.0 * a);
    assert!((root1 - 0.5797958971132712).abs() < 1e-12);
    assert!((root2 + 1.3797958971132712).abs() < 1e-12);
    assert!(root1 > root2);
}

#[test]
fn all_terms_cancel() {
    let m = reduce("x = x").unwrap();
    assert_eq!(formula(&m), "0 = 0");
    assert_eq!(degree(&m), "0");
    assert_eq!(max_exponent(&m), 0);
    assert_eq!(m.len(), 0);
    assert_eq!(classify(&m), Outcome::Cancelled);
}

#[test]
fn constant_cancels() {
    let m = reduce("8 * x^0 = 8").unwrap();
    assert_eq!(formula(&m), "0 = 0");
    assert_eq!(degree(&m), "0");
    assert_eq!(max_exponent(&m), 0);
}

#[test]
fn linear_reduced_form() {
    let m = reduce("3 * x + 2 = 0").unwrap();
    assert_eq!(formula(&m), "+ 3 x + 2 = 0");
    assert_eq!(degree(&m), "1");
    assert_eq!(max_exponent(&m), 1);
    assert_eq!(classify(&m), Outcome::Linear);
    assert_eq!(m.coefficient(1), 3 * UNIT);
    assert_eq!(m.coefficient(0), 2 * UNIT);
    let solution = -(m.coefficient(0) as f64) / m.coefficient(1) as f64;
    assert!((solution + 2.0 / 3.0).abs() < 1e-12);
}

#[test]
fn missing_exponent_digits() {
    assert!(matches!(reduce("2 * x^ = 5"), Err(EquationError::InvalidTerm(t)) if t == "+2*x^"));
}

#[test]
fn two_equals_signs() {
    assert!(matches!(reduce("x = 1 = 2"), Err(EquationError::MalformedEquation)));
}

#[test]
fn no_equals_sign() {
    assert!(matches!(reduce("x + 1"), Err(EquationError::MalformedEquation)));
}

#[test]
fn blank_input() {
    assert!(matches!(reduce(" \t "), Err(EquationError::EmptyInput)));
}

#[test]
fn constant_left_over() {
    let m = reduce("x^0 = 2").unwrap();
    assert_eq!(formula(&m), "- 1 = 0");
    assert_eq!(classify(&m), Outcome::NoSolution);
}

#[test]
fn degree_above_two() {
    let m = reduce("x^3 - 2 * x^5 = x^0").unwrap();
    assert_eq!(formula(&m), "- 2 x^5 + 1 x^3 - 1 = 0");
    assert_eq!(degree(&m), "5");
    assert_eq!(max_exponent(&m), 5);
    assert_eq!(classify(&m), Outcome::Unsolvable);
}

#[test]
fn decimals_are_exact() {
    let m = reduce("0.5 * x + .25 = 1.75 - 0.1 * x").unwrap();
    assert_eq!(formula(&m), "+ 0.6 x - 1.5 = 0");
    assert_eq!(m.coefficient(1), UNIT / 10 * 6);
}

#[test]
fn upper_case_and_tabs() {
    let m = reduce("2\tX^2 =\n4X").unwrap();
    assert_eq!(formula(&m), "+ 2 x^2 - 4 x = 0");
}

#[test]
fn term_without_number_or_star() {
    let m = reduce("-x^2 + 7x = 0").unwrap();
    assert_eq!(formula(&m), "- 1 x^2 + 7 x = 0");
}

#[test]
fn right_side_zero_moves_nothing() {
    let m = reduce("4 = 0").unwrap();
    assert_eq!(formula(&m), "+ 4 = 0");
}

#[test]
fn empty_sides() {
    let m = reduce("= 5x").unwrap();
    assert_eq!(formula(&m), "- 5 x = 0");
    let n = reduce("5 =").unwrap();
    assert_eq!(formula(&n), "+ 5 = 0");
}

#[test]
fn lone_dot_is_invalid() {
    assert!(matches!(reduce(". = 1"), Err(EquationError::InvalidTerm(_))));
}

#[test]
fn star_without_variable_is_invalid() {
    assert!(matches!(reduce("5* = 1"), Err(EquationError::InvalidTerm(_))));
}

#[test]
fn too_many_fraction_digits() {
    assert!(matches!(
        reduce("0.1234567890123456789 = 0"),
        Err(EquationError::NumberOutOfRange(_))
    ));
}

#[test]
fn number_too_large() {
    assert!(matches!(reduce("1000000000000000000000 = 0"), Err(EquationError::NumberOutOfRange(_))));
}

#[test]
fn running_sum_too_large() {
    let r = reduce("100000000000000000000 + 100000000000000000000 = 0");
    assert!(matches!(r, Err(EquationError::NumberOutOfRange(_))));
    let m = reduce("100000000000000000000 = 100000000000000000000").unwrap();
    assert_eq!(m.len(), 0);
}

#[test]
fn exponent_range() {
    assert!(matches!(reduce("x^4294967296 = 0"), Err(EquationError::NumberOutOfRange(_))));
    let m = reduce("x^4294967295 = 0").unwrap();
    assert_eq!(degree(&m), "4294967295");
    assert_eq!(max_exponent(&m), 4294967295);
}

#[test]
fn reduced_form_reduces_to_itself() {
    for input in ["5 * x^2 + 4 * x = 4", "0.5 * x + .25 = 1.75 - 0.1 * x", "x = x", "-3x^7 = 2.125"] {
        let m = reduce(input).unwrap();
        let again = reduce(&formula(&m)).unwrap();
        assert_eq!(again.len(), m.len());
        for i in 0..m.len() {
            assert_eq!(again.entry(i), m.entry(i));
        }
    }
}

#[test]
fn no_zero_entries_survive() {
    let m = reduce("x^2 + 3x - 1 = x^2 - 1 + 2").unwrap();
    assert_eq!(formula(&m), "+ 3 x - 2 = 0");
    for i in 0..m.len() {
        assert_ne!(m.entry(i).1, 0);
    }
}

#[test]
fn signs_reversed() {
    assert_eq!(reverse_signs(&chars("+3x-2+x^2")), chars("-3x+2-x^2"));
}

#[test]
fn tokens_split_at_signs() {
    let t = tokenize(&chars("+5x-+3-"));
    assert_eq!(t, vec![chars("+5x"), chars("+3")]);
}

#[test]
fn term_parsed() {
    let t = parse_term(&chars("-3.5*x^2")).unwrap();
    assert_eq!(t.coefficient, -35 * (UNIT / 10));
    assert!(t.has_variable);
    assert_eq!(t.exponent, 2);
    let c = parse_term(&chars("7.")).unwrap();
    assert_eq!(c.coefficient, 7 * UNIT);
    assert!(!c.has_variable);
    assert_eq!(c.exponent, 0);
}

#[test]
fn sides_combined() {
    let text = normalize_text(" 5 X = 3 - x ");
    assert_eq!(text, chars("5x=3-x"));
    let (left, right) = split_equation(&text).unwrap();
    assert_eq!(left, chars("5x"));
    assert_eq!(right, chars("3-x"));
    assert_eq!(combine_sides(left, right), chars("+5x-3+x"));
    assert_eq!(combine_sides(chars("-x"), chars("0")), chars("-x"));
}
