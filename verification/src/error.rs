use vstd::prelude::*;

verus! {

/// The single failure the arithmetic in this crate can report.
#[derive(Debug, Clone, PartialEq, Eq)]
pub enum BigDecimalMathError {
    /// An operation was asked for a value it does not define, such as the
    /// root of a negative number or a division by zero.
    ArithmeticError(String),
}

impl BigDecimalMathError {
    /// The text carried by the error.
    pub open spec fn message(self) -> Seq<char> {
        match self {
            BigDecimalMathError::ArithmeticError(text) => text@,
        }
    }

    /// Builds an arithmetic error from a description.
    pub fn arithmetic(text: &str) -> (error: BigDecimalMathError)
        ensures
            error.message() == text@,
    {
        BigDecimalMathError::ArithmeticError(text.to_string())
    }

    /// A copy of the description carried by the error.
    pub fn description(&self) -> (text: String)
        ensures
            text@ == self.message(),
    {
        match self {
            BigDecimalMathError::ArithmeticError(text) => text.clone(),
        }
    }
}

} // verus!
