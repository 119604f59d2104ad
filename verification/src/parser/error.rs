//! What the parser reports, and how it says so.

use crate::lexer::{Span, Token};
use vstd::prelude::*;

verus! {

/// One thing the parser would have accepted where it failed.
#[derive(Debug, PartialEq)]
pub enum Expected {
    /// A particular token.
    Token(Token),
    /// A construct, named for a person: "an identifier", "a type", "a string".
    Label(&'static str),
}

#[derive(Debug, PartialEq)]
pub enum ParseErrorKind {
    /// The parser met `found` (nothing, at the end of input) where it needed one of
    /// `expected`.
    Expected { expected: Vec<Expected>, found: Option<Token> },
    /// `enum Name { ... }`: Neon has no `enum`; a sum type is a union of records.
    EnumDeclaration,
}

#[derive(Debug, PartialEq)]
pub struct ParseError {
    pub kind: ParseErrorKind,
    pub span: Span,
}

/// The decimal digits of `n`.
pub open spec fn decimal(n: u64) -> Seq<char>
    decreases n,
{
    if n < 10 {
        seq![digit_char(n)]
    } else {
        decimal(n / 10) + seq![digit_char(n % 10)]
    }
}

pub open spec fn digit_char(d: u64) -> char {
    if d == 0 { '0' } else if d == 1 { '1' } else if d == 2 { '2' } else if d == 3 { '3' } else if d == 4 {
        '4'
    } else if d == 5 { '5' } else if d == 6 { '6' } else if d == 7 { '7' } else if d == 8 { '8' } else {
        '9'
    }
}

/// How a token reads in a message.
pub open spec fn token_text(t: Token) -> Seq<char> {
    match t {
        Token::Fn => "fn"@,
        Token::Test => "test"@,
        Token::Bench => "bench"@,
        Token::Record => "record"@,
        Token::Type => "type"@,
        Token::Mu => "mu"@,
        Token::Newtype => "newtype"@,
        Token::Protocol => "protocol"@,
        Token::Impl => "impl"@,
        Token::Use => "use"@,
        Token::Throws => "throws"@,
        Token::Null => "null"@,
        Token::Ident(s) => s@,
        Token::Atom(s) => ":"@ + s@,
        Token::Int(n) => decimal(n),
        Token::StrStart => "\""@,
        Token::StrText(s) => s@,
        Token::StrEnd => "\""@,
        Token::LParen => "("@,
        Token::RParen => ")"@,
        Token::LBrace => "{"@,
        Token::RBrace => "}"@,
        Token::LBracket => "["@,
        Token::RBracket => "]"@,
        Token::Comma => ","@,
        Token::Colon => ":"@,
        Token::ColonColon => "::"@,
        Token::Arrow => "->"@,
    }
}

/// How one expectation reads: a token in backticks, a construct by its name.
pub open spec fn expected_text(e: Expected) -> Seq<char> {
    match e {
        Expected::Token(t) => "`"@ + token_text(t) + "`"@,
        Expected::Label(l) => l@,
    }
}

/// The expectations, joined by "or".
pub open spec fn expected_list(es: Seq<Expected>) -> Seq<char>
    decreases es.len(),
{
    if es.len() == 0 {
        Seq::empty()
    } else if es.len() == 1 {
        expected_text(es[0])
    } else {
        expected_list(es.drop_last()) + " or "@ + expected_text(es.last())
    }
}

/// What was found: a token in backticks, or the end of the input.
pub open spec fn found_text(found: Option<Token>) -> Seq<char> {
    match found {
        Some(t) => "`"@ + token_text(t) + "`"@,
        None => "end of input"@,
    }
}

/// The message for an `enum` declaration: what to write instead.
pub open spec fn enum_message() -> Seq<char> {
    "Neon has no `enum`: a sum type is a union of records, so write `record Red {}`, `record Green {}` and `type Color = Red | Green`"@
}

/// What an error says.
pub open spec fn parse_message(e: ParseError) -> Seq<char> {
    match e.kind {
        ParseErrorKind::Expected { expected, found } => if expected.len() == 0 {
            "unexpected "@ + found_text(found)
        } else {
            "expected "@ + expected_list(expected@) + ", found "@ + found_text(found)
        },
        ParseErrorKind::EnumDeclaration => enum_message(),
    }
}

/// The decimal digits of `n`, as a string.
fn decimal_text(n: u64) -> (s: String)
    ensures
        s@ == decimal(n),
    decreases n,
{
    let d = n % 10;
    let c = if d == 0 { "0" } else if d == 1 { "1" } else if d == 2 { "2" } else if d == 3 { "3" } else if d == 4 {
        "4"
    } else if d == 5 { "5" } else if d == 6 { "6" } else if d == 7 { "7" } else if d == 8 { "8" } else { "9" };
    proof {
        reveal_strlit("0");
        reveal_strlit("1");
        reveal_strlit("2");
        reveal_strlit("3");
        reveal_strlit("4");
        reveal_strlit("5");
        reveal_strlit("6");
        reveal_strlit("7");
        reveal_strlit("8");
        reveal_strlit("9");
    }
    assert(c@ == seq![digit_char(d)]);
    if n < 10 {
        String::from_str(c)
    } else {
        let mut s = decimal_text(n / 10);
        s.append(c);
        s
    }
}

/// How a token reads in a message, as a string.
fn token_string(t: &Token) -> (s: String)
    ensures
        s@ == token_text(*t),
{
    match t {
        Token::Fn => String::from_str("fn"),
        Token::Test => String::from_str("test"),
        Token::Bench => String::from_str("bench"),
        Token::Record => String::from_str("record"),
        Token::Type => String::from_str("type"),
        Token::Mu => String::from_str("mu"),
        Token::Newtype => String::from_str("newtype"),
        Token::Protocol => String::from_str("protocol"),
        Token::Impl => String::from_str("impl"),
        Token::Use => String::from_str("use"),
        Token::Throws => String::from_str("throws"),
        Token::Null => String::from_str("null"),
        Token::Ident(s) => s.clone(),
        Token::Atom(s) => {
            let mut r = String::from_str(":");
            r.append(s.as_str());
            r
        },
        Token::Int(n) => decimal_text(*n),
        Token::StrStart => String::from_str("\""),
        Token::StrText(s) => s.clone(),
        Token::StrEnd => String::from_str("\""),
        Token::LParen => String::from_str("("),
        Token::RParen => String::from_str(")"),
        Token::LBrace => String::from_str("{"),
        Token::RBrace => String::from_str("}"),
        Token::LBracket => String::from_str("["),
        Token::RBracket => String::from_str("]"),
        Token::Comma => String::from_str(","),
        Token::Colon => String::from_str(":"),
        Token::ColonColon => String::from_str("::"),
        Token::Arrow => String::from_str("->"),
    }
}

fn expected_string(e: &Expected) -> (s: String)
    ensures
        s@ == expected_text(*e),
{
    match e {
        Expected::Token(t) => {
            let mut s = String::from_str("`");
            let inner = token_string(t);
            s.append(inner.as_str());
            s.append("`");
            s
        },
        Expected::Label(l) => String::from_str(l),
    }
}

fn found_string(found: &Option<Token>) -> (s: String)
    ensures
        s@ == found_text(*found),
{
    match found {
        Some(t) => {
            let mut s = String::from_str("`");
            let inner = token_string(t);
            s.append(inner.as_str());
            s.append("`");
            s
        },
        None => String::from_str("end of input"),
    }
}

impl ParseError {
    pub fn new(span: Span, kind: ParseErrorKind) -> (e: ParseError)
        ensures
            e.kind == kind,
            e.span == span,
    {
        ParseError { kind, span }
    }

    /// The error as a sentence for a person.
    pub fn message(&self) -> (m: String)
        ensures
            m@ == parse_message(*self),
    {
        match &self.kind {
            ParseErrorKind::Expected { expected, found } => {
                if expected.len() == 0 {
                    let mut m = String::from_str("unexpected ");
                    let f = found_string(found);
                    m.append(f.as_str());
                    m
                } else {
                    let mut m = String::from_str("expected ");
                    let mut i: usize = 0;
                    while i < expected.len()
                        invariant
                            i <= expected.len(),
                            expected.len() > 0,
                            m@ == "expected "@ + expected_list(expected@.take(i as int)),
                        decreases expected.len() - i,
                    {
                        assert(expected@.take(i + 1).drop_last() == expected@.take(i as int));
                        if i > 0 {
                            m.append(" or ");
                        } else {
                            assert(expected_list(expected@.take(0)) == Seq::<char>::empty());
                        }
                        let e = expected_string(&expected[i]);
                        m.append(e.as_str());
                        assert(m@ =~= "expected "@ + expected_list(expected@.take(i + 1)));
                        i += 1;
                    }
                    assert(expected@.take(expected.len() as int) == expected@);
                    m.append(", found ");
                    let f = found_string(found);
                    m.append(f.as_str());
                    m
                }
            },
            ParseErrorKind::EnumDeclaration => String::from_str(
                "Neon has no `enum`: a sum type is a union of records, so write `record Red {}`, `record Green {}` and `type Color = Red | Green`",
            ),
        }
    }
}

} // verus!
