use vstd::prelude::*;

use crate::error::{OperandRule, RunTimeError, SyntaxError};
use crate::scanner::ScannerError;
use crate::text::string_from_chars;

verus! {

/// What the front end reports of an error: the line, a hint of where on it,
/// and a message.
#[derive(Clone, Debug)]
pub struct Diagnostic {
    pub line: u64,
    pub location: String,
    pub message: String,
}

fn text(s: &str) -> (r: String)
    ensures
        r@ == s@,
{
    String::from_str(s)
}

fn no_location() -> (r: String)
    ensures
        r@ == Seq::<char>::empty(),
{
    String::new()
}

impl ScannerError {
    /// The line of the error and its message; the location is empty.
    pub fn diagnostic(&self) -> (r: Diagnostic)
        ensures
            r.line == match *self {
                ScannerError::UnrecognizedSymbol(line, _) => line,
                ScannerError::UnterminatedString(line) => line,
                ScannerError::NumberOutOfRange(line) => line,
            },
            r.location@ == Seq::<char>::empty(),
            r.message@ == match *self {
                ScannerError::UnrecognizedSymbol(_, c) => "Unrecognized character: "@ + seq![c],
                ScannerError::UnterminatedString(_) => "Unterminated string literal, expected closing '\"'"@,
                ScannerError::NumberOutOfRange(_) => "Number literal has too many digits"@,
            },
    {
        match self {
            ScannerError::UnrecognizedSymbol(line, c) => {
                let symbol = string_from_chars(&vec![*c]);
                Diagnostic {
                    line: *line,
                    location: no_location(),
                    message: text("Unrecognized character: ").concat(symbol.as_str()),
                }
            },
            ScannerError::UnterminatedString(line) => Diagnostic {
                line: *line,
                location: no_location(),
                message: text("Unterminated string literal, expected closing '\"'"),
            },
            ScannerError::NumberOutOfRange(line) => Diagnostic {
                line: *line,
                location: no_location(),
                message: text("Number literal has too many digits"),
            },
        }
    }
}

impl SyntaxError {
    /// The line and lexeme of the offending token and the error's message.
    pub fn diagnostic(&self) -> (r: Diagnostic)
        ensures
            match self {
                SyntaxError::UnmatchedToken(t, m) => r.line == t.line && r.location@ == t.lexeme@
                    && r.message@ == m@,
                SyntaxError::ExpectedToken(_, t, m) => r.line == t.line && r.location@
                    == t.lexeme@ && r.message@ == m@,
                SyntaxError::InvalidAssignment(t) => r.line == t.line && r.location@
                    == Seq::<char>::empty() && r.message@ == "Invalid assignment target"@,
            },
    {
        match self {
            SyntaxError::UnmatchedToken(t, m) => Diagnostic {
                line: t.line,
                location: t.lexeme.clone(),
                message: m.clone(),
            },
            SyntaxError::ExpectedToken(_, t, m) => Diagnostic {
                line: t.line,
                location: t.lexeme.clone(),
                message: m.clone(),
            },
            SyntaxError::InvalidAssignment(t) => Diagnostic {
                line: t.line,
                location: no_location(),
                message: text("Invalid assignment target"),
            },
        }
    }
}

impl RunTimeError {
    /// The line and lexeme of the token the error is about, and a message;
    /// line 0 and no location for a loop that ran out of steps.
    pub fn diagnostic(&self) -> (r: Diagnostic)
        ensures
            match self {
                RunTimeError::UndefinedVariable(t) => r.line == t.line && r.location@ == t.lexeme@
                    && r.message@ == "Undefined variable"@,
                RunTimeError::InvalidOperand(t, OperandRule::Numbers) => r.line == t.line
                    && r.location@ == t.lexeme@ && r.message@ == "Operands must be numbers"@,
                RunTimeError::InvalidOperand(t, OperandRule::NumbersOrStrings) => r.line == t.line
                    && r.location@ == t.lexeme@ && r.message@
                    == "Operands must be two numbers or two strings"@,
                RunTimeError::DivisionByZero(t) => r.line == t.line && r.location@ == t.lexeme@
                    && r.message@ == "Division by zero"@,
                RunTimeError::NumberOutOfRange(t) => r.line == t.line && r.location@ == t.lexeme@
                    && r.message@ == "Number out of range"@,
                RunTimeError::StepLimit => r.line == 0 && r.location@ == Seq::<char>::empty()
                    && r.message@ == "Loop ran out of steps"@,
            },
    {
        match self {
            RunTimeError::UndefinedVariable(t) => Diagnostic {
                line: t.line,
                location: t.lexeme.clone(),
                message: text("Undefined variable"),
            },
            RunTimeError::InvalidOperand(t, OperandRule::Numbers) => Diagnostic {
                line: t.line,
                location: t.lexeme.clone(),
                message: text("Operands must be numbers"),
            },
            RunTimeError::InvalidOperand(t, OperandRule::NumbersOrStrings) => Diagnostic {
                line: t.line,
                location: t.lexeme.clone(),
                message: text("Operands must be two numbers or two strings"),
            },
            RunTimeError::DivisionByZero(t) => Diagnostic {
                line: t.line,
                location: t.lexeme.clone(),
                message: text("Division by zero"),
            },
            RunTimeError::NumberOutOfRange(t) => Diagnostic {
                line: t.line,
                location: t.lexeme.clone(),
                message: text("Number out of range"),
            },
            RunTimeError::StepLimit => Diagnostic {
                line: 0,
                location: no_location(),
                message: text("Loop ran out of steps"),
            },
        }
    }
}

} // verus!
