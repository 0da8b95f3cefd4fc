use vstd::prelude::*;

use crate::token::{Token, TokenType};

verus! {

/// An error met while parsing one statement; parsing resumes at the next
/// statement boundary.
#[derive(Clone, Debug)]
pub enum SyntaxError {
    /// The token that matched no grammar rule, and a message.
    UnmatchedToken(Token, String),
    /// The kind expected, the token found instead, and a message.
    ExpectedToken(TokenType, Token, String),
    /// The `=` token of an assignment whose target is not a variable.
    InvalidAssignment(Token),
}

/// What an operator needs of its operands.
#[derive(Clone, Copy, Debug, PartialEq, Eq, Structural)]
pub enum OperandRule {
    /// Numbers.
    Numbers,
    /// Two numbers or two strings.
    NumbersOrStrings,
}

/// An error that stops evaluation.
#[derive(Clone, Debug)]
pub enum RunTimeError {
    /// A name that no scope of the chain binds.
    UndefinedVariable(Token),
    /// An operator applied to operands of the wrong type.
    InvalidOperand(Token, OperandRule),
    /// A division whose divisor is zero.
    DivisionByZero(Token),
    /// An arithmetic result that the number representation cannot hold.
    NumberOutOfRange(Token),
    /// A loop that ran out of its step budget.
    StepLimit,
}

} // verus!
