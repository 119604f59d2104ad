//! Where an offset sits in a source text, for messages.

use crate::lsp::position::bytes_of;
use vstd::prelude::*;

verus! {

/// How many newline bytes the first `k` bytes of `b` hold.
pub open spec fn newlines(b: Seq<u8>, k: int) -> nat
    decreases k,
{
    if k <= 0 || k > b.len() {
        0
    } else {
        newlines(b, k - 1) + if b[k - 1] == 10u8 {
            1nat
        } else {
            0nat
        }
    }
}

/// The 1-based line of a byte offset. An offset past the end is on the last line.
pub fn line_of(src: &str, offset: usize) -> (line: usize)
    requires
        bytes_of(src@).len() < usize::MAX,
        vstd::utf8::is_char_boundary(
            bytes_of(src@),
            if offset < bytes_of(src@).len() {
                offset as int
            } else {
                bytes_of(src@).len() as int
            },
        ),
    ensures
        line == 1 + newlines(
            bytes_of(src@),
            if offset < bytes_of(src@).len() {
                offset as int
            } else {
                bytes_of(src@).len() as int
            },
        ),
{
    let bytes = src.as_bytes();
    let end = if offset < bytes.len() {
        offset
    } else {
        bytes.len()
    };
    let mut count: usize = 0;
    let mut k: usize = 0;
    while k < end
        invariant
            k <= end,
            end <= bytes.len(),
            bytes@ == bytes_of(src@),
            count == newlines(bytes@, k as int),
            count <= k,
        decreases end - k,
    {
        if bytes[k] == 10u8 {
            count += 1;
        }
        k += 1;
    }
    count + 1
}

} // verus!
