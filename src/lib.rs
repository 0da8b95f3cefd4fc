//! The execution core of an interpreter for a small dynamically typed
//! scripting language: a scanner, a recursive-descent parser, the syntax
//! tree, a parent-linked scope chain and a tree-walking evaluator.
//!
//! Numbers are exact rationals ([`Number`]): arithmetic results are kept in
//! lowest terms, and a result that does not fit an `i64` numerator over a
//! `u64` denominator is a runtime error (`NumberOutOfRange`). Division by
//! zero is a runtime error too (`DivisionByZero`). A number literal may hold
//! at most [`scanner::MAX_NUMBER_DIGITS`] (18) digits; a longer one is a
//! lexical error (`NumberOutOfRange`). A number that is not whole prints with
//! at most 16 digits after the point, the rest cut off. A loop may run its
//! body at most [`STEP_BUDGET`] times, so every run of the evaluator ends.
//!
//! [`scan`], [`Parser::parse`] and [`Interpreter::interpret`] are the three
//! stages, each proved equal to its specification: [`scanner::scan_spec`],
//! [`grammar::p_program`] and [`interpreter::exec_program`]; [`Lox::run`] chains them for one source text of a session.

pub mod ast;
pub mod diagnostic;
pub mod environment;
pub mod error;
pub mod grammar;
pub mod interpreter;
pub mod lox;
pub mod number;
pub mod parser;
pub mod printer;
pub mod scanner;
mod text;
pub mod token;
pub mod value;

pub use ast::{
    AssignNode, BinaryNode, BinaryOperators, BlockNode, ExprNode, GroupingNode, IfNode,
    LiteralNode, LogicalNode, StmtNode, UnaryNode, UnaryOperators, VarNode, WhileNode,
};
pub use diagnostic::Diagnostic;
pub use environment::Environment;
pub use error::{OperandRule, RunTimeError, SyntaxError};
pub use interpreter::{Interpreter, STEP_BUDGET};
pub use lox::{Lox, RunReport};
pub use number::Number;
pub use parser::Parser;
pub use printer::{PrettyPrinter, Rpn};
pub use scanner::{
    is_alpha, is_alphanumeric, is_digit, keyword_map, scan, Scanner, ScannerError,
};
pub use token::{Token, TokenLiteral, TokenType};
pub use value::Value;
