//! Everything the grammar ignores and the formatter must not lose.
//!
//! Comments and the file's line table live here as side tables keyed by byte offset,
//! outside the token stream, so the parser's alphabet is exactly the grammar's while the
//! formatter still sees every comment. Whitespace is not recorded: where the author broke
//! lines is recoverable from `line_starts` and the spans already at hand.

use super::token::{Span, Spanned};
use vstd::prelude::*;

verus! {

/// A comment, with its extent and its text.
#[derive(Debug, Clone, PartialEq, Eq)]
pub struct Trivia {
    pub kind: TriviaKind,
    /// Covers the whole comment, delimiters included.
    pub span: Span,
    /// The comment's text, delimiters stripped.
    pub text: String,
}

#[derive(Debug, Clone, Copy, PartialEq, Eq, Structural)]
pub enum TriviaKind {
    /// `// ...`
    Line,
    /// `/// ...`: attaches to the following declaration.
    Doc,
    /// `/* ... */`, possibly nested.
    Block,
}

/// The lexer's full output. Tokens drive the parser; trivia and line starts exist for the
/// formatter.
#[derive(Debug, Clone)]
pub struct Lexed {
    pub tokens: Vec<Spanned>,
    pub trivia: Vec<Trivia>,
    /// Byte offset of the start of each line: 0 first, then one past every newline.
    pub line_starts: Vec<usize>,
}

/// A line table: it starts at offset 0 and increases strictly.
pub open spec fn line_table(s: Seq<usize>) -> bool {
    &&& s.len() > 0
    &&& s[0] == 0
    &&& forall|i: int, j: int| 0 <= i < j < s.len() ==> s[i] < s[j]
}

/// The 0-based line holding `offset`: the last line starting at or before it. An offset
/// past the end of the file is on the last line.
pub open spec fn line_at(s: Seq<usize>, offset: int) -> int {
    choose|r: int| 0 <= r < s.len() && #[trigger] s[r] <= offset && (r + 1 == s.len() || offset < s[r + 1])
}

/// In a line table, the line holding an offset is the one that starts at or before it and
/// is followed by one that starts after it.
pub proof fn lemma_line_at(s: Seq<usize>, offset: int, r: int)
    requires
        line_table(s),
        0 <= r < s.len(),
        s[r] <= offset,
        r + 1 == s.len() || offset < s[r + 1],
    ensures
        line_at(s, offset) == r,
{
    let q = line_at(s, offset);
    if q < r {
        assert(s[q + 1] <= s[r]);
    } else if q > r {
        assert(s[r + 1] <= s[q]);
    }
}

/// The comments lying inside `[start, end)`, in order.
pub open spec fn trivia_in(ts: Seq<Trivia>, start: usize, end: usize) -> Seq<Trivia>
    decreases ts.len(),
{
    if ts.len() == 0 {
        ts
    } else {
        let r = trivia_in(ts.drop_last(), start, end);
        if ts.last().span.start >= start && ts.last().span.end <= end {
            r.push(ts.last())
        } else {
            r
        }
    }
}

impl Trivia {
    /// The same comment.
    pub fn copy(&self) -> (t: Trivia)
        ensures
            t == *self,
    {
        Trivia { kind: self.kind, span: self.span, text: self.text.clone() }
    }
}

impl Lexed {
    /// 0-based line containing `offset`. An offset past the end of the file answers with
    /// the last line rather than failing: the formatter asks about `span.end`, one past
    /// the last byte, all over the place.
    pub fn line_of(&self, offset: usize) -> (line: usize)
        requires
            line_table(self.line_starts@),
        ensures
            line == line_at(self.line_starts@, offset as int),
    {
        let s = &self.line_starts;
        let mut lo: usize = 0;
        let mut hi: usize = s.len();
        while lo + 1 < hi
            invariant
                line_table(s@),
                lo < hi <= s.len(),
                s@[lo as int] <= offset,
                hi == s.len() || offset < s@[hi as int],
            decreases hi - lo,
        {
            let mid = lo + (hi - lo) / 2;
            if s[mid] <= offset {
                lo = mid;
            } else {
                hi = mid;
            }
        }
        proof {
            lemma_line_at(s@, offset as int, lo as int);
        }
        lo
    }

    /// Blank lines between the end of `before` and the start of `after`: how far apart the
    /// author put two items.
    pub fn blank_lines_between(&self, before: usize, after: usize) -> (n: usize)
        requires
            line_table(self.line_starts@),
        ensures
            n == (if line_at(self.line_starts@, after as int) > line_at(self.line_starts@, before as int) + 1 {
                line_at(self.line_starts@, after as int) - line_at(self.line_starts@, before as int) - 1
            } else {
                0
            }),
    {
        let a = self.line_of(before);
        let b = self.line_of(after);
        b.saturating_sub(a).saturating_sub(1)
    }

    /// The comments lying inside a span, in order.
    pub fn trivia_within(&self, span: &Span) -> (r: Vec<Trivia>)
        ensures
            r@ == trivia_in(self.trivia@, span.start, span.end),
    {
        let (start, end) = (span.start, span.end);
        let mut r: Vec<Trivia> = Vec::new();
        let mut i: usize = 0;
        while i < self.trivia.len()
            invariant
                i <= self.trivia.len(),
                start == span.start,
                end == span.end,
                r@ == trivia_in(self.trivia@.take(i as int), start, end),
            decreases self.trivia.len() - i,
        {
            let t = &self.trivia[i];
            assert(self.trivia@.take(i + 1).drop_last() == self.trivia@.take(i as int));
            if t.span.start >= start && t.span.end <= end {
                r.push(t.copy());
            }
            i += 1;
        }
        assert(self.trivia@.take(self.trivia.len() as int) == self.trivia@);
        r
    }
}

} // verus!
