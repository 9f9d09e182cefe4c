//! The ways in which conversion and evaluation fail.

use vstd::prelude::*;

verus! {

#[derive(Clone, Copy, Debug, PartialEq, Eq, Structural)]
pub enum CalcError {
    /// A `)` arrived while no `(` was pending.
    OpenBracketMissing,
    /// The most recent bracket seen was a `(`.
    CloseBracketMissing,
    /// The expression produced no output at all.
    EmptyOrInvalidExpression,
    /// A numeric token is not a decimal number.
    InvalidNumber,
    /// An operator found fewer than two values to work on, or evaluation
    /// ended without a value.
    MissingOperand,
    /// A division whose divisor is zero.
    DivideByZero,
}

impl CalcError {
    /// The message of this error, as a sequence of characters.
    pub open spec fn text(self) -> Seq<char> {
        match self {
            CalcError::OpenBracketMissing => "Syntax error : open bracket missing"@,
            CalcError::CloseBracketMissing => "Syntax error : close bracket missing"@,
            CalcError::EmptyOrInvalidExpression => "Syntax error : wrong input provided"@,
            CalcError::InvalidNumber => "Parse error : invalid number"@,
            CalcError::MissingOperand => "Syntax error : wrong value entered"@,
            CalcError::DivideByZero => "Divide by zero error"@,
        }
    }

    /// The message of this error.
    pub fn message(self) -> (m: &'static str)
        ensures
            m@ == self.text(),
    {
        match self {
            CalcError::OpenBracketMissing => "Syntax error : open bracket missing",
            CalcError::CloseBracketMissing => "Syntax error : close bracket missing",
            CalcError::EmptyOrInvalidExpression => "Syntax error : wrong input provided",
            CalcError::InvalidNumber => "Parse error : invalid number",
            CalcError::MissingOperand => "Syntax error : wrong value entered",
            CalcError::DivideByZero => "Divide by zero error",
        }
    }
}

} // verus!
