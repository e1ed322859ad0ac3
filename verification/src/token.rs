//! Positions, lexemes, tokens and the lexer's error type.

use vstd::prelude::*;

verus! {

/// A half-open character span. Each endpoint is a triple of
/// (absolute offset, 0-indexed line, 0-indexed column).
#[derive(Debug, Clone, Copy, PartialEq, Eq)]
pub struct Position {
    pub from: (usize, usize, usize),
    pub to: (usize, usize, usize),
}

impl Position {
    /// The span of the single character at the given coordinates.
    pub fn point(abs: usize, line: usize, column: usize) -> (r: Position)
        requires
            abs < usize::MAX,
            column < usize::MAX,
        ensures
            r.from == (abs, line, column),
            r.to.0 == abs + 1,
            r.to.1 == line,
            r.to.2 == column + 1,
    {
        Position { from: (abs, line, column), to: (abs + 1, line, column + 1) }
    }

    /// The smallest span containing both inputs: the earlier `from`
    /// (by absolute offset) and the later `to`.
    pub fn cover(self, other: Position) -> (r: Position)
        ensures
            r.from == if self.from.0 <= other.from.0 {
                self.from
            } else {
                other.from
            },
            r.to == if self.to.0 <= other.to.0 {
                other.to
            } else {
                self.to
            },
    {
        let from = if self.from.0 <= other.from.0 {
            self.from
        } else {
            other.from
        };
        let to = if self.to.0 <= other.to.0 {
            other.to
        } else {
            self.to
        };
        Position { from, to }
    }
}

/// The tag-and-payload classification of a token.
#[derive(Debug, Clone, PartialEq, Eq)]
pub enum Lexeme {
    Lparren,
    Rparren,
    Lbracket,
    Tbracket,
    Rbracket,
    Lbrace,
    Rbrace,
    Keyword(String),
    Word(String),
    Mword(String),
    Underscore,
    Comma,
    Dot,
    Rarrow,
    Colon,
    Bar,
    Equals,
    Operator(String),
    String(String),
    Char(char),
    Integer(String),
    Float(String),
    Comment(String),
    DocComment(String),
    TopDocComment(String),
    Indent(usize),
    Unindent(usize),
    Newline,
    Eof,
}

/// A lexeme together with the span of the characters it was derived from.
#[derive(Debug, Clone, PartialEq, Eq)]
pub struct Token {
    pub lexeme: Lexeme,
    pub position: Position,
}

/// The lexer's failures. The first two are reported by the reading
/// front end that decodes bytes before they reach the lexer.
#[derive(Debug, Clone, PartialEq, Eq)]
pub enum LexerError {
    NotUtf8,
    IoError,
    UnexpectedEof(Position),
    InvalidInteger(Position),
    MysteriousChar(Position),
}

} // verus!
