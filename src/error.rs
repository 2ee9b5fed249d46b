use vstd::prelude::*;

verus! {

/// Why an equation could not be reduced.
#[derive(Debug)]
pub enum EquationError {
    /// Nothing but white space was given.
    EmptyInput,
    /// The text does not hold exactly one `=`.
    MalformedEquation,
    /// A term does not follow the term grammar; the term's text is kept.
    InvalidTerm(String),
    /// A term carries an exponent without the variable.
    InvalidTermFormat(String),
    /// A number, an exponent or a running sum leaves the range that the library holds exactly.
    NumberOutOfRange(String),
}

/// What an error says, with its texts as character sequences.
pub ghost enum Fault {
    EmptyInput,
    MalformedEquation,
    InvalidTerm(Seq<char>),
    InvalidTermFormat(Seq<char>),
    NumberOutOfRange(Seq<char>),
}

impl View for EquationError {
    type V = Fault;

    open spec fn view(&self) -> Fault {
        match self {
            EquationError::EmptyInput => Fault::EmptyInput,
            EquationError::MalformedEquation => Fault::MalformedEquation,
            EquationError::InvalidTerm(s) => Fault::InvalidTerm(s@),
            EquationError::InvalidTermFormat(s) => Fault::InvalidTermFormat(s@),
            EquationError::NumberOutOfRange(s) => Fault::NumberOutOfRange(s@),
        }
    }
}

/// Relies on `FromIterator<char> for String`: the string holds the characters in order.
#[verifier::external_body]
pub(crate) fn text_of(chars: &Vec<char>) -> (r: String)
    ensures
        r@ == chars@,
{
    chars.iter().collect()
}

} // verus!
