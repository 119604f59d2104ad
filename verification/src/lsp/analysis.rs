//! The front end's findings as data for an editor.
//!
//! A build renders diagnostics and stops at the first stage that fails; an editor needs
//! the errors as data, for a file that does not compile. Diagnostics stay in byte offsets:
//! turning them into line and column is the protocol layer's job.

use super::position::{bytes_of, LineIndex, Position};
use crate::lexer::error::lex_message;
use crate::lexer::{LexError, Span};
use crate::parser::error::parse_message;
use crate::parser::ParseError;
use vstd::prelude::*;

verus! {

/// One diagnostic, in byte offsets.
#[derive(Debug)]
pub struct Diagnostic {
    pub span: Span,
    pub message: String,
    /// Extra spans that explain the error, each with its own note.
    pub labels: Vec<(Span, String)>,
    pub help: Option<String>,
}

impl Diagnostic {
    /// A diagnostic with nothing but a span and a message.
    pub fn plain(span: Span, message: String) -> (d: Diagnostic)
        ensures
            d.span == span,
            d.message@ == message@,
            d.labels@.len() == 0,
            d.help is None,
    {
        Diagnostic { span, message, labels: Vec::new(), help: None }
    }
}

/// The lexer's errors as diagnostics: one each, in order, at the error's span and with its
/// message.
pub fn lex_diagnostics(errors: &Vec<LexError>) -> (ds: Vec<Diagnostic>)
    ensures
        ds.len() == errors.len(),
        forall|i: int|
            0 <= i < ds.len() ==> {
                let d = #[trigger] ds@[i];
                &&& d.span == errors@[i].span
                &&& d.message@ == lex_message(errors@[i].kind)
                &&& d.labels@.len() == 0
                &&& d.help is None
            },
{
    let mut ds: Vec<Diagnostic> = Vec::new();
    let mut i: usize = 0;
    while i < errors.len()
        invariant
            i <= errors.len(),
            ds.len() == i,
            forall|k: int|
                0 <= k < i ==> {
                    let d = #[trigger] ds@[k];
                    &&& d.span == errors@[k].span
                    &&& d.message@ == lex_message(errors@[k].kind)
                    &&& d.labels@.len() == 0
                    &&& d.help is None
                },
        decreases errors.len() - i,
    {
        let e = &errors[i];
        ds.push(Diagnostic::plain(e.span, e.message()));
        i += 1;
    }
    ds
}

/// The parser's errors as diagnostics: one each, in order, at the error's span and with
/// its message.
pub fn parse_diagnostics(errors: &Vec<ParseError>) -> (ds: Vec<Diagnostic>)
    ensures
        ds.len() == errors.len(),
        forall|i: int|
            0 <= i < ds.len() ==> {
                let d = #[trigger] ds@[i];
                &&& d.span == errors@[i].span
                &&& d.message@ == parse_message(errors@[i])
                &&& d.labels@.len() == 0
                &&& d.help is None
            },
{
    let mut ds: Vec<Diagnostic> = Vec::new();
    let mut i: usize = 0;
    while i < errors.len()
        invariant
            i <= errors.len(),
            ds.len() == i,
            forall|k: int|
                0 <= k < i ==> {
                    let d = #[trigger] ds@[k];
                    &&& d.span == errors@[k].span
                    &&& d.message@ == parse_message(errors@[k])
                    &&& d.labels@.len() == 0
                    &&& d.help is None
                },
        decreases errors.len() - i,
    {
        let e = &errors[i];
        ds.push(Diagnostic::plain(e.span, e.message()));
        i += 1;
    }
    ds
}

/// A diagnostic as an editor shows it: a range of positions, one message, and the notes
/// that explain it, each at its own range.
#[derive(Debug)]
pub struct EditorDiagnostic {
    pub start: Position,
    pub end: Position,
    pub message: String,
    /// `None` when there are no notes.
    pub related: Option<Vec<(Position, Position, String)>>,
}

/// What an editor shows as the message: the help text, the actionable half of most
/// messages, appended after a blank line, since an editor shows one string.
pub open spec fn shown_message(message: Seq<char>, help: Option<Seq<char>>) -> Seq<char> {
    match help {
        Some(h) => message + "\n\nhelp: "@ + h,
        None => message,
    }
}

/// An offset that `LineIndex::position` can place: within the text or past its end, on a
/// character boundary once clamped.
pub open spec fn placeable(index: LineIndex, offset: usize) -> bool {
    let b = bytes_of(index.doc());
    vstd::utf8::is_char_boundary(
        b,
        if offset < b.len() {
            offset as int
        } else {
            b.len() as int
        },
    )
}

/// A diagnostic in byte offsets, placed for an editor: its span and every label's span as
/// positions in the document, and its help, if any, appended to its message.
pub fn editor_diagnostic(d: &Diagnostic, index: &LineIndex) -> (e: EditorDiagnostic)
    requires
        index.wf(),
        placeable(*index, d.span.start),
        placeable(*index, d.span.end),
        forall|k: int|
            0 <= k < d.labels.len() ==> placeable(*index, (#[trigger] d.labels@[k]).0.start) && placeable(
                *index,
                d.labels@[k].0.end,
            ),
    ensures
        e.start == index.position_spec(d.span.start),
        e.end == index.position_spec(d.span.end),
        e.message@ == shown_message(
            d.message@,
            match d.help {
                Some(h) => Some(h@),
                None => None,
            },
        ),
        d.labels.len() == 0 ==> e.related is None,
        d.labels.len() > 0 ==> (e.related matches Some(r) && r.len() == d.labels.len() && forall|k: int|
            0 <= k < r.len() ==> {
                let (s, t, note) = #[trigger] r@[k];
                &&& s == index.position_spec(d.labels@[k].0.start)
                &&& t == index.position_spec(d.labels@[k].0.end)
                &&& note@ == d.labels@[k].1@
            }),
{
    let start = index.position(d.span.start);
    let end = index.position(d.span.end);
    let message = match &d.help {
        Some(help) => {
            let mut m = d.message.clone();
            m.append("\n\nhelp: ");
            m.append(help.as_str());
            m
        },
        None => d.message.clone(),
    };
    let related = if d.labels.len() == 0 {
        None
    } else {
        let mut r: Vec<(Position, Position, String)> = Vec::new();
        let mut k: usize = 0;
        while k < d.labels.len()
            invariant
                k <= d.labels.len(),
                index.wf(),
                forall|x: int|
                    0 <= x < d.labels.len() ==> placeable(*index, (#[trigger] d.labels@[x]).0.start) && placeable(
                        *index,
                        d.labels@[x].0.end,
                    ),
                r.len() == k,
                forall|x: int|
                    0 <= x < k ==> {
                        let (s, t, note) = #[trigger] r@[x];
                        &&& s == index.position_spec(d.labels@[x].0.start)
                        &&& t == index.position_spec(d.labels@[x].0.end)
                        &&& note@ == d.labels@[x].1@
                    },
            decreases d.labels.len() - k,
        {
            let (span, note) = &d.labels[k];
            let s = index.position(span.start);
            let t = index.position(span.end);
            r.push((s, t, note.clone()));
            k += 1;
        }
        Some(r)
    };
    EditorDiagnostic { start, end, message, related }
}

} // verus!
