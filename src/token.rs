use vstd::prelude::*;

use crate::number::{Number, Ratio};

verus! {

/// The category of a token.
#[derive(Clone, Copy, Debug, PartialEq, Eq, Structural)]
pub enum TokenType {
    // Single-character tokens.
    LeftParen,
    RightParen,
    LeftBrace,
    RightBrace,
    Comma,
    Dot,
    Minus,
    Plus,
    Semicolon,
    Slash,
    Star,
    // One or two character tokens.
    Bang,
    BangEqual,
    Equal,
    EqualEqual,
    Greater,
    GreaterEqual,
    Less,
    LessEqual,
    // Literals.
    Identifier,
    String,
    Number,
    // Keywords.
    And,
    Class,
    Else,
    False,
    Fun,
    For,
    If,
    Nil,
    Or,
    Print,
    Return,
    Super,
    This,
    True,
    Var,
    While,
    Eof,
}

/// The value a literal token carries.
#[derive(Clone, Debug)]
pub enum TokenLiteral {
    Nothing,
    String(String),
    Number(Number),
}

/// A classified lexeme together with its literal value and source line.
#[derive(Clone, Debug)]
pub struct Token {
    pub t_type: TokenType,
    pub lexeme: String,
    pub literal: TokenLiteral,
    pub line: u64,
}

/// The mathematical value of a [`TokenLiteral`].
pub enum LiteralView {
    Nothing,
    Str(Seq<char>),
    Num(Ratio),
}

/// The mathematical value of a [`Token`].
pub struct TokenView {
    pub t_type: TokenType,
    pub lexeme: Seq<char>,
    pub literal: LiteralView,
    pub line: u64,
}

/// The value of a literal.
pub open spec fn literal_view(l: TokenLiteral) -> LiteralView {
    match l {
        TokenLiteral::Nothing => LiteralView::Nothing,
        TokenLiteral::String(s) => LiteralView::Str(s@),
        TokenLiteral::Number(n) => LiteralView::Num(n@),
    }
}

/// The value of a token: its kind, lexeme, literal and line.
pub open spec fn token_view(t: Token) -> TokenView {
    TokenView { t_type: t.t_type, lexeme: t.lexeme@, literal: literal_view(t.literal), line: t.line }
}

/// The views of a sequence of tokens.
pub open spec fn views(ts: Seq<Token>) -> Seq<TokenView> {
    ts.map_values(|t: Token| token_view(t))
}

impl TokenLiteral {
    /// A copy that is equal to `self`.
    pub fn duplicate(&self) -> (r: TokenLiteral)
        ensures
            r == *self,
    {
        match self {
            TokenLiteral::Nothing => TokenLiteral::Nothing,
            TokenLiteral::String(s) => TokenLiteral::String(s.clone()),
            TokenLiteral::Number(n) => TokenLiteral::Number(*n),
        }
    }
}

impl Token {
    pub fn new(t_type: TokenType, lexeme: String, literal: TokenLiteral, line: u64) -> (r: Token)
        ensures
            r == (Token { t_type, lexeme, literal, line }),
    {
        Token { t_type, lexeme, literal, line }
    }

    /// A copy that is equal to `self`.
    pub fn duplicate(&self) -> (r: Token)
        ensures
            r == *self,
    {
        Token {
            t_type: self.t_type,
            lexeme: self.lexeme.clone(),
            literal: self.literal.duplicate(),
            line: self.line,
        }
    }
}

} // verus!
