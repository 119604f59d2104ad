//! What the lexer refuses, and how it says so.
//!
//! The kinds are a closed set with one variant per distinguishable mistake, rather than a
//! single "bad token" carrying prose: a diagnostics pass can match on a kind and render it
//! however it likes, and tests assert on kinds instead of on message text.
//!
//! Every kind blames a span in the source, and for unterminated constructs that span is the
//! opener, not the end of the file.

use super::token::Span;
use vstd::prelude::*;

verus! {

#[derive(Debug, Clone, PartialEq, Eq)]
pub struct LexError {
    pub kind: LexErrorKind,
    pub span: Span,
}

#[derive(Debug, Clone, PartialEq, Eq)]
pub enum LexErrorKind {
    UnexpectedChar(char),
    /// A BOM anywhere other than the very start of the file.
    UnexpectedBom,
    IntegerOverflow,
    /// A numeric literal with a digit position left empty: `0x`, `0b` or `0o` with nothing
    /// after the prefix, and also `1e`.
    EmptyIntLiteral,
    /// `_` leading or trailing a numeric literal, or doubled.
    MisplacedUnderscore,
    UnterminatedString,
    UnterminatedBlockComment,
    UnterminatedInterp,
    UnterminatedRune,
    /// `''`
    EmptyRune,
    /// `'ab'`: a rune holds exactly one character.
    OvershortRune,
    /// `\q`: an escape that does not exist.
    UnknownEscape(char),
    /// `\xZZ` or `\x4`: needs exactly two hex digits.
    BadHexEscape,
    /// `\u{...}` with no closing brace, no digits, or a value that is not a scalar value.
    BadUnicodeEscape,
    /// A `}` in code position that closes nothing.
    UnmatchedCloseBrace,
}

/// The one-character string holding `c`.
pub open spec fn char_seq(c: char) -> Seq<char> {
    seq![c]
}

/// `char`'s `to_string`: trusted to give the string of exactly that one character.
#[verifier::external_body]
fn char_text(c: char) -> (s: String)
    ensures
        s@ == char_seq(c),
{
    c.to_string()
}

/// What an error of a kind says.
pub open spec fn lex_message(kind: LexErrorKind) -> Seq<char> {
    match kind {
        LexErrorKind::UnexpectedChar(c) => "unexpected character `"@ + char_seq(c) + "`"@,
        LexErrorKind::UnexpectedBom => "byte order mark is only allowed at the start of a file"@,
        LexErrorKind::IntegerOverflow => "integer literal does not fit in 64 bits"@,
        LexErrorKind::EmptyIntLiteral => "integer literal has no digits"@,
        LexErrorKind::MisplacedUnderscore => "`_` must separate digits, not lead or trail them"@,
        LexErrorKind::UnterminatedString => "unterminated string literal"@,
        LexErrorKind::UnterminatedBlockComment => "unterminated block comment"@,
        LexErrorKind::UnterminatedInterp => "unterminated `#{` interpolation"@,
        LexErrorKind::UnterminatedRune => "unterminated rune literal"@,
        LexErrorKind::EmptyRune => "empty rune literal"@,
        LexErrorKind::OvershortRune => "rune literal holds more than one character"@,
        LexErrorKind::UnknownEscape(c) => "unknown escape `\\"@ + char_seq(c) + "`"@,
        LexErrorKind::BadHexEscape => "`\\x` needs exactly two hex digits"@,
        LexErrorKind::BadUnicodeEscape => "`\\u{...}` needs 1-6 hex digits naming a character"@,
        LexErrorKind::UnmatchedCloseBrace => "unmatched `}`"@,
    }
}

impl LexError {
    pub fn new(kind: LexErrorKind, span: Span) -> (e: Self)
        ensures
            e.kind == kind,
            e.span == span,
    {
        LexError { kind, span }
    }

    /// The error as a sentence for a person.
    pub fn message(&self) -> (m: String)
        ensures
            m@ == lex_message(self.kind),
    {
        match &self.kind {
            LexErrorKind::UnexpectedChar(c) => {
                let mut m = String::from_str("unexpected character `");
                let ch = char_text(*c);
                m.append(ch.as_str());
                m.append("`");
                m
            },
            LexErrorKind::UnexpectedBom => String::from_str("byte order mark is only allowed at the start of a file"),
            LexErrorKind::IntegerOverflow => String::from_str("integer literal does not fit in 64 bits"),
            LexErrorKind::EmptyIntLiteral => String::from_str("integer literal has no digits"),
            LexErrorKind::MisplacedUnderscore => String::from_str("`_` must separate digits, not lead or trail them"),
            LexErrorKind::UnterminatedString => String::from_str("unterminated string literal"),
            LexErrorKind::UnterminatedBlockComment => String::from_str("unterminated block comment"),
            LexErrorKind::UnterminatedInterp => String::from_str("unterminated `#{` interpolation"),
            LexErrorKind::UnterminatedRune => String::from_str("unterminated rune literal"),
            LexErrorKind::EmptyRune => String::from_str("empty rune literal"),
            LexErrorKind::OvershortRune => String::from_str("rune literal holds more than one character"),
            LexErrorKind::UnknownEscape(c) => {
                let mut m = String::from_str("unknown escape `\\");
                let ch = char_text(*c);
                m.append(ch.as_str());
                m.append("`");
                m
            },
            LexErrorKind::BadHexEscape => String::from_str("`\\x` needs exactly two hex digits"),
            LexErrorKind::BadUnicodeEscape => String::from_str("`\\u{...}` needs 1-6 hex digits naming a character"),
            LexErrorKind::UnmatchedCloseBrace => String::from_str("unmatched `}`"),
        }
    }
}

} // verus!
