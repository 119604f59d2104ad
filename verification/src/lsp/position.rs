//! Byte offsets to editor positions.
//!
//! The compiler counts bytes; an editor counts UTF-16 code units within a line, which is
//! neither bytes nor characters. Getting this wrong is invisible in ASCII and silently
//! misplaces every span after the first non-ASCII character in a file.
//!
//! The index is built once per document version and binary-searched, rather than scanning
//! from the start for each diagnostic: a file with many errors is exactly the file being
//! edited, and quadratic behaviour there would be felt.

use crate::lexer::trivia::{lemma_line_at, line_at, line_table};
use vstd::prelude::*;

verus! {

/// A place in a document: a 0-based line, and a 0-based offset within it in UTF-16 code
/// units.
#[derive(Debug, Clone, Copy, PartialEq, Eq, Structural)]
pub struct Position {
    pub line: u32,
    pub character: u32,
}

/// The UTF-8 bytes of a text.
pub open spec fn bytes_of(text: Seq<char>) -> Seq<u8> {
    vstd::utf8::encode_utf8(text)
}

/// Where each line of `b` starts: at 0, and one past every newline.
pub open spec fn starts_of(b: Seq<u8>) -> Seq<usize>
    decreases b.len(),
{
    if b.len() == 0 {
        seq![0usize]
    } else {
        let r = starts_of(b.drop_last());
        if b.last() == 10u8 {
            r.push(b.len() as usize)
        } else {
            r
        }
    }
}

/// How many UTF-16 code units the UTF-8 text `b` takes: one for each character, and one
/// more for each character outside the basic plane, which is the one whose encoding
/// starts with a byte of `0xF0` or above.
pub open spec fn utf16_units(b: Seq<u8>) -> nat
    decreases b.len(),
{
    if b.len() == 0 {
        0
    } else {
        utf16_units(b.drop_last()) + (if b.last() & 0xC0u8 != 0x80u8 {
            1nat
        } else {
            0nat
        }) + (if b.last() >= 0xF0u8 {
            1nat
        } else {
            0nat
        })
    }
}

/// Line starts for one document, for turning byte offsets into positions.
pub struct LineIndex {
    /// Byte offset of the first character of each line. Always starts with 0, so a
    /// document with no newlines still has one entry.
    starts: Vec<usize>,
    text: String,
}

/// The line starts are those of the text, and the text fits in memory.
proof fn lemma_starts_table(b: Seq<u8>)
    requires
        b.len() <= usize::MAX,
    ensures
        line_table(starts_of(b)),
        forall|k: int| 0 <= k < starts_of(b).len() ==> #[trigger] starts_of(b)[k] <= b.len(),
    decreases b.len(),
{
    if b.len() > 0 {
        lemma_starts_table(b.drop_last());
    }
}

impl LineIndex {
    pub closed spec fn wf(&self) -> bool {
        &&& self.starts@ == starts_of(bytes_of(self.text@))
        &&& bytes_of(self.text@).len() <= usize::MAX
    }

    /// The document's text.
    pub closed spec fn doc(&self) -> Seq<char> {
        self.text@
    }

    /// Where a byte offset sits: the line holding it (an offset past the end clamps to the
    /// end), and the UTF-16 length of that line's text before it.
    pub open spec fn position_spec(&self, offset: usize) -> Position {
        let b = bytes_of(self.doc());
        let o = if offset < b.len() {
            offset as int
        } else {
            b.len() as int
        };
        let line = line_at(starts_of(b), o);
        Position { line: line as u32, character: utf16_units(b.subrange(starts_of(b)[line] as int, o)) as u32 }
    }

    pub fn new(text: &str) -> (idx: LineIndex)
        ensures
            idx.wf(),
            idx.doc() == text@,
    {
        let bytes = text.as_bytes();
        let mut starts: Vec<usize> = vec![0];
        let mut i: usize = 0;
        while i < bytes.len()
            invariant
                i <= bytes.len(),
                bytes@ == bytes_of(text@),
                starts@ == starts_of(bytes@.take(i as int)),
            decreases bytes.len() - i,
        {
            assert(bytes@.take(i + 1).drop_last() == bytes@.take(i as int));
            if bytes[i] == 10u8 {
                starts.push(i + 1);
            }
            i += 1;
        }
        assert(bytes@.take(bytes.len() as int) == bytes@);
        LineIndex { starts, text: String::from_str(text) }
    }

    pub fn text(&self) -> (t: &str)
        ensures
            t@ == self.doc(),
    {
        self.text.as_str()
    }

    /// The position of a byte offset. An offset past the end clamps to the end of the
    /// document: pointing at the last character beats dropping the diagnostic.
    pub fn position(&self, offset: usize) -> (p: Position)
        requires
            self.wf(),
            vstd::utf8::is_char_boundary(
                bytes_of(self.doc()),
                if offset < bytes_of(self.doc()).len() {
                    offset as int
                } else {
                    bytes_of(self.doc()).len() as int
                },
            ),
        ensures
            p == self.position_spec(offset),
    {
        let bytes = self.text.as_str().as_bytes();
        let ghost b = bytes@;
        proof {
            lemma_starts_table(b);
        }
        let offset = if offset < bytes.len() {
            offset
        } else {
            bytes.len()
        };
        // The last line starting at or before the offset.
        let s = &self.starts;
        let mut lo: usize = 0;
        let mut hi: usize = s.len();
        while lo + 1 < hi
            invariant
                line_table(s@),
                lo < hi <= s.len(),
                s@[lo as int] <= offset,
                hi == s.len() || offset < s@[hi as int],
            decreases hi - lo,
        {
            let mid = lo + (hi - lo) / 2;
            if s[mid] <= offset {
                lo = mid;
            } else {
                hi = mid;
            }
        }
        proof {
            lemma_line_at(s@, offset as int, lo as int);
        }
        let line = lo;
        let line_start = s[line];
        // Only the part of the line before the offset counts, and it counts in UTF-16.
        let mut character: u128 = 0;
        let mut k: usize = line_start;
        while k < offset
            invariant
                line_start <= k <= offset,
                offset <= bytes.len(),
                bytes@ == b,
                character == utf16_units(b.subrange(line_start as int, k as int)),
                character <= 2 * (k - line_start),
                bytes.len() <= usize::MAX,
            decreases offset - k,
        {
            let byte = bytes[k];
            assert(b.subrange(line_start as int, k + 1).drop_last() =~= b.subrange(line_start as int, k as int));
            if byte & 0xC0u8 != 0x80u8 {
                character += 1;
            }
            if byte >= 0xF0u8 {
                character += 1;
            }
            k += 1;
        }
        Position { line: line as u32, character: character as u32 }
    }
}

/// How many UTF-16 code units `c` takes: one below U+10000, two (a surrogate pair) above.
pub open spec fn utf16_len(c: char) -> nat {
    if (c as u32) < 0x10000 {
        1
    } else {
        2
    }
}

/// How many UTF-16 code units the characters `cs` take.
pub open spec fn utf16_of(cs: Seq<char>) -> nat
    decreases cs.len(),
{
    if cs.len() == 0 {
        0
    } else {
        utf16_len(cs[0]) + utf16_of(cs.drop_first())
    }
}

/// The start of the line holding a byte offset (clamped to the end), and the clamped offset.
pub open spec fn line_span(index: LineIndex, offset: usize) -> (int, int) {
    let b = bytes_of(index.doc());
    let o = if offset < b.len() {
        offset as int
    } else {
        b.len() as int
    };
    (starts_of(b)[line_at(starts_of(b), o)] as int, o)
}

/// The characters of the line holding a byte offset, before it.
pub open spec fn line_prefix(index: LineIndex, offset: usize) -> Seq<char> {
    let (s, o) = line_span(index, offset);
    vstd::utf8::decode_utf8(bytes_of(index.doc()).subrange(s, o))
}

proof fn lemma_units_add(a: Seq<u8>, b: Seq<u8>)
    ensures
        utf16_units(a + b) == utf16_units(a) + utf16_units(b),
    decreases b.len(),
{
    if b.len() > 0 {
        lemma_units_add(a, b.drop_last());
        assert((a + b).drop_last() =~= a + b.drop_last());
        assert((a + b).last() == b.last());
    } else {
        assert(a + b =~= a);
    }
}

proof fn lemma_units_one(x: u8)
    ensures
        utf16_units(seq![x]) == (if x & 0xC0u8 != 0x80u8 {
            1nat
        } else {
            0nat
        }) + (if x >= 0xF0u8 {
            1nat
        } else {
            0nat
        }),
{
    assert(seq![x].drop_last() =~= Seq::<u8>::empty());
    assert(utf16_units(seq![x].drop_last()) == 0);
    assert(seq![x].last() == x);
}

/// One character's UTF-8 bytes count as its UTF-16 length.
proof fn lemma_units_scalar(c: char)
    ensures
        utf16_units(vstd::utf8::encode_scalar(c as u32)) == utf16_len(c),
{
    let s = c as u32;
    vstd::utf8::char_is_scalar(c);
    let e = vstd::utf8::encode_scalar(s);
    if vstd::utf8::has_width_1_encoding(s) {
        let b0 = vstd::utf8::leading_byte_width_1(s);
        assert(b0 & 0xC0u8 != 0x80u8 && b0 < 0xF0u8) by (bit_vector)
            requires
                b0 == (s & 0x7F) as u8,
        ;
        lemma_units_one(b0);
    } else if vstd::utf8::has_width_2_encoding(s) {
        let b0 = vstd::utf8::leading_byte_width_2(s);
        let b1 = vstd::utf8::last_continuation_byte(s);
        assert(b0 & 0xC0u8 != 0x80u8 && b0 < 0xF0u8) by (bit_vector)
            requires
                b0 == 0xC0u8 | ((s >> 6) & 0x1F) as u8,
        ;
        assert(b1 & 0xC0u8 == 0x80u8 && b1 < 0xF0u8) by (bit_vector)
            requires
                b1 == 0x80u8 | (s & 0x3F) as u8,
        ;
        lemma_units_one(b0);
        lemma_units_one(b1);
        assert(e =~= seq![b0] + seq![b1]);
        lemma_units_add(seq![b0], seq![b1]);
    } else if vstd::utf8::has_width_3_encoding(s) {
        let b0 = vstd::utf8::leading_byte_width_3(s);
        let b1 = vstd::utf8::second_last_continuation_byte(s);
        let b2 = vstd::utf8::last_continuation_byte(s);
        assert(b0 & 0xC0u8 != 0x80u8 && b0 < 0xF0u8) by (bit_vector)
            requires
                b0 == 0xE0u8 | ((s >> 12) & 0x0F) as u8,
        ;
        assert(b1 & 0xC0u8 == 0x80u8 && b1 < 0xF0u8) by (bit_vector)
            requires
                b1 == 0x80u8 | ((s >> 6) & 0x3F) as u8,
        ;
        assert(b2 & 0xC0u8 == 0x80u8 && b2 < 0xF0u8) by (bit_vector)
            requires
                b2 == 0x80u8 | (s & 0x3F) as u8,
        ;
        lemma_units_one(b0);
        lemma_units_one(b1);
        lemma_units_one(b2);
        assert(e =~= seq![b0] + seq![b1] + seq![b2]);
        lemma_units_add(seq![b0], seq![b1]);
        lemma_units_add(seq![b0] + seq![b1], seq![b2]);
    } else {
        let b0 = vstd::utf8::leading_byte_width_4(s);
        let b1 = vstd::utf8::third_last_continuation_byte(s);
        let b2 = vstd::utf8::second_last_continuation_byte(s);
        let b3 = vstd::utf8::last_continuation_byte(s);
        assert(b0 & 0xC0u8 != 0x80u8 && b0 >= 0xF0u8) by (bit_vector)
            requires
                b0 == 0xF0u8 | ((s >> 18) & 0x7) as u8,
        ;
        assert(b1 & 0xC0u8 == 0x80u8 && b1 < 0xF0u8) by (bit_vector)
            requires
                b1 == 0x80u8 | ((s >> 12) & 0x3F) as u8,
        ;
        assert(b2 & 0xC0u8 == 0x80u8 && b2 < 0xF0u8) by (bit_vector)
            requires
                b2 == 0x80u8 | ((s >> 6) & 0x3F) as u8,
        ;
        assert(b3 & 0xC0u8 == 0x80u8 && b3 < 0xF0u8) by (bit_vector)
            requires
                b3 == 0x80u8 | (s & 0x3F) as u8,
        ;
        lemma_units_one(b0);
        lemma_units_one(b1);
        lemma_units_one(b2);
        lemma_units_one(b3);
        assert(e =~= seq![b0] + seq![b1] + seq![b2] + seq![b3]);
        lemma_units_add(seq![b0], seq![b1]);
        lemma_units_add(seq![b0] + seq![b1], seq![b2]);
        lemma_units_add(seq![b0] + seq![b1] + seq![b2], seq![b3]);
    }
}

/// The UTF-8 bytes of characters count as their UTF-16 length.
proof fn lemma_units_encode(cs: Seq<char>)
    ensures
        utf16_units(vstd::utf8::encode_utf8(cs)) == utf16_of(cs),
    decreases cs.len(),
{
    if cs.len() > 0 {
        lemma_units_encode(cs.drop_first());
        lemma_units_scalar(cs[0]);
        lemma_units_add(vstd::utf8::encode_scalar(cs[0] as u32), vstd::utf8::encode_utf8(cs.drop_first()));
    }
}

/// Every line but the first starts right after a newline byte.
proof fn lemma_starts_after_newline(b: Seq<u8>)
    requires
        b.len() <= usize::MAX,
    ensures
        forall|k: int|
            0 <= k < starts_of(b).len() ==> #[trigger] starts_of(b)[k] == 0 || (1 <= starts_of(b)[k] <= b.len()
                && b[starts_of(b)[k] - 1] == 10u8),
    decreases b.len(),
{
    if b.len() > 0 {
        lemma_starts_after_newline(b.drop_last());
        let r = starts_of(b.drop_last());
        assert forall|k: int|
            0 <= k < starts_of(b).len() implies #[trigger] starts_of(b)[k] == 0 || (1 <= starts_of(b)[k] <= b.len()
                && b[starts_of(b)[k] - 1] == 10u8) by {
            if k < r.len() {
                assert(starts_of(b)[k] == r[k]);
                if r[k] != 0 {
                    assert(b.drop_last()[r[k] - 1] == b[r[k] - 1]);
                }
            } else {
                assert(b.last() == 10u8);
                assert(starts_of(b) == r.push(b.len() as usize));
                assert(starts_of(b)[k] == b.len());
            }
        }
    }
}

/// In valid UTF-8, a character boundary followed by a one-byte character is followed by
/// another boundary.
proof fn lemma_boundary_after_ascii(bytes: Seq<u8>, i: int)
    requires
        vstd::utf8::valid_utf8(bytes),
        0 <= i < bytes.len(),
        vstd::utf8::is_char_boundary(bytes, i),
        vstd::utf8::is_leading_byte_width_1(bytes[i]),
    ensures
        vstd::utf8::is_char_boundary(bytes, i + 1),
    decreases bytes.len(),
{
    let l = vstd::utf8::length_of_first_scalar(bytes);
    let rest = vstd::utf8::pop_first_scalar(bytes);
    assert(1 <= l <= bytes.len());
    assert(rest.len() == bytes.len() - l);
    if i == 0 {
        assert(l == 1);
        reveal_with_fuel(vstd::utf8::is_char_boundary, 2);
    } else {
        assert(vstd::utf8::is_char_boundary(rest, i - l));
        assert(vstd::utf8::valid_utf8(rest));
        if i - l < 0 {
            assert(false);
        }
        assert(rest[i - l] == bytes[i]);
        lemma_boundary_after_ascii(rest, i - l);
        assert(vstd::utf8::is_char_boundary(bytes, i + 1) == vstd::utf8::is_char_boundary(rest, i + 1 - l));
    }
}

/// The last line starting at or before an offset exists.
proof fn lemma_line_exists(s: Seq<usize>, o: int, j: int) -> (r: int)
    requires
        line_table(s),
        0 <= o,
        0 <= j < s.len(),
        forall|k: int| j < k < s.len() ==> o < #[trigger] s[k],
    ensures
        0 <= r < s.len(),
        s[r] <= o,
        r + 1 == s.len() || o < s[r + 1],
    decreases j,
{
    if s[j] <= o {
        j
    } else {
        lemma_line_exists(s, o, j - 1)
    }
}

impl LineIndex {
    /// The column of a position is the UTF-16 length of the characters of its line before
    /// the offset: one code unit for each character below U+10000 and two for each above,
    /// whatever the length of its UTF-8 encoding.
    pub proof fn lemma_position_counts_utf16(&self, offset: usize)
        requires
            self.wf(),
            vstd::utf8::is_char_boundary(
                bytes_of(self.doc()),
                if offset < bytes_of(self.doc()).len() {
                    offset as int
                } else {
                    bytes_of(self.doc()).len() as int
                },
            ),
        ensures
            self.position_spec(offset).character == utf16_of(line_prefix(*self, offset)) as u32,
    {
        let b = bytes_of(self.doc());
        vstd::utf8::encode_utf8_valid_utf8(self.doc());
        let (start, o) = line_span(*self, offset);
        let st = starts_of(b);
        lemma_starts_table(b);
        let r = lemma_line_exists(st, o, st.len() - 1);
        lemma_line_at(st, o, r);
        lemma_starts_after_newline(b);
        assert(st[r] == start);
        assert(start <= o);
        // The line starts on a character boundary.
        assert(vstd::utf8::is_char_boundary(b, start)) by {
            if start == 0 {
                vstd::utf8::is_char_boundary_start_end_of_seq(b);
            } else {
                assert(b[start - 1] == 10u8);
                vstd::utf8::is_char_boundary_iff_not_is_continuation_byte(b, start - 1);
                lemma_boundary_after_ascii(b, start - 1);
            }
        }
        let pre = b.subrange(0, o);
        vstd::utf8::valid_utf8_split(b, o);
        assert(vstd::utf8::is_char_boundary(pre, start)) by {
            if start == o {
                vstd::utf8::is_char_boundary_start_end_of_seq(pre);
            } else {
                vstd::utf8::is_char_boundary_iff_not_is_continuation_byte(pre, start);
                vstd::utf8::is_char_boundary_iff_not_is_continuation_byte(b, start);
                assert(pre[start] == b[start]);
            }
        }
        vstd::utf8::valid_utf8_split(pre, start);
        let sub = b.subrange(start, o);
        assert(pre.subrange(start, pre.len() as int) =~= sub);
        vstd::utf8::decode_utf8_encode_utf8(sub);
        lemma_units_encode(vstd::utf8::decode_utf8(sub));
    }
}

/// How many newline bytes `b` holds.
pub open spec fn newlines(b: Seq<u8>) -> nat
    decreases b.len(),
{
    if b.len() == 0 {
        0
    } else {
        newlines(b.drop_last()) + if b.last() == 10u8 {
            1nat
        } else {
            0nat
        }
    }
}

proof fn lemma_starts_len(b: Seq<u8>)
    ensures
        starts_of(b).len() == 1 + newlines(b),
    decreases b.len(),
{
    if b.len() > 0 {
        lemma_starts_len(b.drop_last());
    }
}

/// The line starts of a prefix are the first line starts of the whole, and the next start
/// of the whole, if any, lies past the prefix.
proof fn lemma_starts_prefix(b: Seq<u8>, m: int)
    requires
        0 <= m <= b.len(),
        b.len() <= usize::MAX,
    ensures
        starts_of(b.take(m)).len() <= starts_of(b).len(),
        starts_of(b.take(m)) == starts_of(b).take(starts_of(b.take(m)).len() as int),
        starts_of(b.take(m)).len() < starts_of(b).len() ==> m < starts_of(b)[starts_of(b.take(m)).len() as int],
    decreases b.len(),
{
    if m == b.len() {
        assert(b.take(m) =~= b);
        assert(starts_of(b).take(starts_of(b).len() as int) =~= starts_of(b));
    } else {
        let d = b.drop_last();
        assert(d.take(m) =~= b.take(m));
        lemma_starts_prefix(d, m);
        lemma_starts_table(d);
        let q = starts_of(b.take(m)).len() as int;
        if b.last() == 10u8 {
            assert(starts_of(b) == starts_of(d).push(b.len() as usize));
            assert(starts_of(b).take(q) =~= starts_of(d).take(q));
        } else {
            assert(starts_of(b) == starts_of(d));
        }
    }
}

impl LineIndex {
    /// The line of a position is the number of newlines before the offset (clamped to the
    /// end of the document): the first line is line 0.
    pub proof fn lemma_position_line_counts_newlines(&self, offset: usize)
        requires
            self.wf(),
        ensures
            self.position_spec(offset).line == newlines(bytes_of(self.doc()).take(line_span(*self, offset).1)) as u32,
    {
        let b = bytes_of(self.doc());
        let o = line_span(*self, offset).1;
        let st = starts_of(b);
        lemma_starts_table(b);
        lemma_starts_prefix(b, o);
        let pre = starts_of(b.take(o));
        lemma_starts_len(b.take(o));
        let q = pre.len() as int;
        lemma_starts_table(b.take(o));
        assert(pre[q - 1] <= o);
        assert(st[q - 1] == pre[q - 1]);
        lemma_line_at(st, o, q - 1);
    }
}

/// Every newline is followed by a line start.
proof fn lemma_newline_starts(b: Seq<u8>, j: int)
    requires
        0 <= j < b.len(),
        b[j] == 10u8,
        b.len() <= usize::MAX,
    ensures
        starts_of(b).contains((j + 1) as usize),
    decreases b.len(),
{
    let d = b.drop_last();
    if j == b.len() - 1 {
        assert(starts_of(b) == starts_of(d).push(b.len() as usize));
        assert(starts_of(b)[starts_of(d).len() as int] == (j + 1) as usize);
    } else {
        lemma_newline_starts(d, j);
        let t = choose|t: int| 0 <= t < starts_of(d).len() && starts_of(d)[t] == (j + 1) as usize;
        if b.last() == 10u8 {
            assert(starts_of(b) == starts_of(d).push(b.len() as usize));
        }
        assert(starts_of(b)[t] == (j + 1) as usize);
    }
}

impl LineIndex {
    /// The line of a position starts right after the last newline before the offset (or at
    /// the start of the document): the text between the line's start and the offset holds
    /// no newline.
    pub proof fn lemma_position_line_start(&self, offset: usize)
        requires
            self.wf(),
        ensures
            ({
                let b = bytes_of(self.doc());
                let (s, o) = line_span(*self, offset);
                &&& 0 <= s <= o <= b.len()
                &&& s == 0 || b[s - 1] == 10u8
                &&& forall|j: int| s <= j < o ==> b[j] != 10u8
            }),
    {
        let b = bytes_of(self.doc());
        let (s, o) = line_span(*self, offset);
        let st = starts_of(b);
        lemma_starts_table(b);
        let r = lemma_line_exists(st, o, st.len() - 1);
        lemma_line_at(st, o, r);
        lemma_starts_after_newline(b);
        assert(st[r] == s);
        assert forall|j: int| s <= j < o implies b[j] != 10u8 by {
            if b[j] == 10u8 {
                lemma_newline_starts(b, j);
                let t = choose|t: int| 0 <= t < st.len() && st[t] == (j + 1) as usize;
                if t <= r {
                    assert(st[t] <= st[r]);
                } else {
                    assert(st[r + 1] <= st[t]);
                }
            }
        }
    }
}

} // verus!
