//! Tokens: their kinds, literal payloads, and the mathematical view of each.
use vstd::prelude::*;

verus! {

/// The closed set of lexical categories.
#[derive(Debug, Clone, Copy, PartialEq, Eq, Structural)]
pub enum TokenType {
    LeftParen,
    RightParen,
    LeftBrace,
    RightBrace,
    Comma,
    Dot,
    Minus,
    Plus,
    Semicolon,
    Slash,
    Star,
    Bang,
    BangEqual,
    Equal,
    EqualEqual,
    Greater,
    GreaterEqual,
    Less,
    LessEqual,
    Identifier,
    String,
    Number,
    And,
    Else,
    False,
    Fn,
    For,
    If,
    Or,
    Return,
    True,
    Let,
    While,
    Eof,
}

/// The payload of a literal token or literal expression. A number keeps its
/// decimal text (digits, optionally followed by `.` and more digits), so no
/// precision is decided here; an evaluator reads it as a 64-bit float.
#[derive(Debug, PartialEq)]
pub enum Literal {
    String(String),
    Number(String),
    Bool(bool),
    Nil,
}

/// A lexeme with its kind, optional literal payload and 1-based source line.
#[derive(Debug, PartialEq)]
pub struct Token {
    pub kind: TokenType,
    pub lexeme: String,
    pub literal: Option<Literal>,
    pub line: usize,
}

/// What a literal payload holds, with text as a sequence of characters.
pub enum LiteralView {
    Text(Seq<char>),
    Number(Seq<char>),
    Bool(bool),
    Nil,
}

/// What a token holds, with text as a sequence of characters.
pub struct TokenView {
    pub kind: TokenType,
    pub lexeme: Seq<char>,
    pub literal: Option<LiteralView>,
    pub line: nat,
}

impl View for Literal {
    type V = LiteralView;

    open spec fn view(&self) -> LiteralView {
        match self {
            Literal::String(s) => LiteralView::Text(s@),
            Literal::Number(s) => LiteralView::Number(s@),
            Literal::Bool(b) => LiteralView::Bool(*b),
            Literal::Nil => LiteralView::Nil,
        }
    }
}

pub open spec fn literal_view(l: Option<Literal>) -> Option<LiteralView> {
    match l {
        Some(v) => Some(v@),
        None => None,
    }
}

impl View for Token {
    type V = TokenView;

    open spec fn view(&self) -> TokenView {
        TokenView {
            kind: self.kind,
            lexeme: self.lexeme@,
            literal: literal_view(self.literal),
            line: self.line as nat,
        }
    }
}

/// Whether a token sequence can be parsed: it is closed by `Eof`.
pub open spec fn parsable(ts: Seq<Token>) -> bool {
    ts.len() > 0 && ts.last().kind == TokenType::Eof
}

/// The views of a sequence of tokens.
pub open spec fn views(ts: Seq<Token>) -> Seq<TokenView> {
    ts.map_values(|t: Token| t@)
}

impl Clone for Literal {
    fn clone(&self) -> (r: Self)
        ensures
            r == *self,
    {
        match self {
            Literal::String(s) => Literal::String(s.clone()),
            Literal::Number(s) => Literal::Number(s.clone()),
            Literal::Bool(b) => Literal::Bool(*b),
            Literal::Nil => Literal::Nil,
        }
    }
}

impl Clone for Token {
    fn clone(&self) -> (r: Self)
        ensures
            r == *self,
    {
        let literal = match &self.literal {
            Some(l) => Some(l.clone()),
            None => None,
        };
        Token { kind: self.kind, lexeme: self.lexeme.clone(), literal, line: self.line }
    }
}

impl Token {
    pub fn new(kind: TokenType, lexeme: &str, literal: Option<Literal>, line: usize) -> (r: Self)
        ensures
            r.kind == kind,
            r.lexeme@ == lexeme@,
            r.literal == literal,
            r.line == line,
    {
        Token { kind, lexeme: lexeme.to_owned(), literal, line }
    }
}

} // verus!
