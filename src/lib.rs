use vstd::prelude::*;

pub mod equation;
pub mod error;
pub mod laws;
pub mod lexer;
pub mod poly;
pub mod term;

pub use equation::{classify, reduce, Outcome};
pub use error::EquationError;
pub use lexer::reverse_signs;
pub use poly::{degree, formula, max_exponent, CoefficientMap};
pub use term::{parse_term, Term, UNIT};

verus! {

} // verus!
