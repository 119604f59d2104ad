//! Tokens, and where in the source each one came from.

use vstd::prelude::*;

verus! {

/// A half-open range of byte offsets into the source.
#[derive(Debug, Clone, Copy, PartialEq, Eq, Structural)]
pub struct Span {
    pub start: usize,
    pub end: usize,
}

/// The tokens the grammar is written over.
///
/// `enum` and `any` are not keywords: they arrive as identifiers and are matched by text
/// where the grammar gives them a meaning.
#[derive(Debug, Clone, PartialEq)]
pub enum Token {
    Fn,
    Test,
    Bench,
    Record,
    Type,
    Mu,
    Newtype,
    Protocol,
    Impl,
    Use,
    Throws,
    Null,
    Ident(String),
    /// `:ok` — an atom, without its colon.
    Atom(String),
    /// An integer literal's magnitude.
    Int(u64),
    /// The opening quote of a string literal.
    StrStart,
    /// A run of literal text inside a string.
    StrText(String),
    /// The closing quote of a string literal.
    StrEnd,
    LParen,
    RParen,
    LBrace,
    RBrace,
    LBracket,
    RBracket,
    Comma,
    Colon,
    ColonColon,
    Arrow,
}

/// A token with the span of source it was read from.
#[derive(Debug, Clone, PartialEq)]
pub struct Spanned {
    pub token: Token,
    pub span: Span,
}

impl Token {
    /// The token itself, copied.
    pub fn copy(&self) -> (t: Token)
        ensures
            t == *self,
    {
        match self {
            Token::Fn => Token::Fn,
            Token::Test => Token::Test,
            Token::Bench => Token::Bench,
            Token::Record => Token::Record,
            Token::Type => Token::Type,
            Token::Mu => Token::Mu,
            Token::Newtype => Token::Newtype,
            Token::Protocol => Token::Protocol,
            Token::Impl => Token::Impl,
            Token::Use => Token::Use,
            Token::Throws => Token::Throws,
            Token::Null => Token::Null,
            Token::Ident(s) => Token::Ident(s.clone()),
            Token::Atom(s) => Token::Atom(s.clone()),
            Token::Int(n) => Token::Int(*n),
            Token::StrStart => Token::StrStart,
            Token::StrText(s) => Token::StrText(s.clone()),
            Token::StrEnd => Token::StrEnd,
            Token::LParen => Token::LParen,
            Token::RParen => Token::RParen,
            Token::LBrace => Token::LBrace,
            Token::RBrace => Token::RBrace,
            Token::LBracket => Token::LBracket,
            Token::RBracket => Token::RBracket,
            Token::Comma => Token::Comma,
            Token::Colon => Token::Colon,
            Token::ColonColon => Token::ColonColon,
            Token::Arrow => Token::Arrow,
        }
    }
}

} // verus!
