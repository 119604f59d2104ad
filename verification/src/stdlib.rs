//! Turning stdlib paths into module prefixes.
//!
//! `stdlib/std/io.neon` becomes the module `std::io`, by path: there is no `mod std { }`
//! wrapper in the source.

use crate::parser::strs_m;
use vstd::prelude::*;

verus! {

/// A path separator: `/`, or `\` as Windows writes it.
pub open spec fn is_sep(c: char) -> bool {
    c == '/' || c == '\\'
}

/// `s` without a trailing `.neon`, if it has one.
pub open spec fn strip_neon(s: Seq<char>) -> Seq<char> {
    if s.len() >= 5 && s.subrange(s.len() - 5, s.len() as int) == ".neon"@ {
        s.subrange(0, s.len() - 5)
    } else {
        s
    }
}

/// Splitting `s` at separators: the segments finished so far, and the one being read.
pub open spec fn split_parts(s: Seq<char>) -> (Seq<Seq<char>>, Seq<char>)
    decreases s.len(),
{
    if s.len() == 0 {
        (Seq::empty(), Seq::empty())
    } else {
        let (done, cur) = split_parts(s.drop_last());
        if is_sep(s.last()) {
            (if cur.len() > 0 {
                done.push(cur)
            } else {
                done
            }, Seq::empty())
        } else {
            (done, cur.push(s.last()))
        }
    }
}

/// The non-empty pieces of `s` between separators, in order.
pub open spec fn segments(s: Seq<char>) -> Seq<Seq<char>> {
    let (done, cur) = split_parts(s);
    if cur.len() > 0 {
        done.push(cur)
    } else {
        done
    }
}

/// The module prefix a stdlib-relative path denotes. The prelude is declared at the root,
/// so its short names resolve from any module without a `use`.
pub open spec fn module_prefix_of(rel: Seq<char>) -> Seq<Seq<char>> {
    let s = strip_neon(rel);
    if s == "prelude"@ {
        Seq::empty()
    } else {
        segments(s)
    }
}

/// Whether the characters of `rel` from `at` on spell `word`.
fn spells(rel: &str, at: usize, word: &str) -> (b: bool)
    requires
        at + word@.len() <= rel@.len(),
        rel@.len() <= usize::MAX,
    ensures
        b == (rel@.subrange(at as int, at + word@.len()) == word@),
{
    let n = word.unicode_len();
    let mut k: usize = 0;
    while k < n
        invariant
            k <= n,
            n == word@.len(),
            at + n <= rel@.len(),
            rel@.len() <= usize::MAX,
            forall|x: int| 0 <= x < k ==> rel@[at + x] == word@[x],
        decreases n - k,
    {
        if rel.get_char(at + k) != word.get_char(k) {
            assert(rel@.subrange(at as int, at + n)[k as int] != word@[k as int]);
            return false;
        }
        k += 1;
    }
    assert(rel@.subrange(at as int, at + n) =~= word@);
    true
}

/// The module prefix a stdlib-relative path denotes: `std/io.neon` → `["std", "io"]`,
/// `std/collections/list.neon` → `["std", "collections", "list"]`, and the prelude,
/// `prelude.neon`, → `[]`.
pub fn module_prefix(rel: &str) -> (r: Vec<String>)
    ensures
        strs_m(r@) == module_prefix_of(rel@),
{
    let n = rel.unicode_len();
    let suffix = ".neon";
    proof {
        reveal_strlit(".neon");
    }
    let end = if n >= 5 && spells(rel, n - 5, suffix) {
        n - 5
    } else {
        n
    };
    let ghost s = strip_neon(rel@);
    assert(s =~= rel@.subrange(0, end as int));
    let prelude = "prelude";
    proof {
        reveal_strlit("prelude");
    }
    if end == 7 && spells(rel, 0, prelude) {
        assert(s =~= "prelude"@);
        return Vec::new();
    }
    assert(s != "prelude"@) by {
        if s == "prelude"@ {
            assert(end == 7);
            assert(rel@.subrange(0, 7) =~= s);
        }
    }
    let mut out: Vec<String> = Vec::new();
    let mut start: usize = 0;
    let mut k: usize = 0;
    while k < end
        invariant
            k <= end,
            end <= rel@.len(),
            start <= k,
            s == rel@.subrange(0, end as int),
            strs_m(out@) == split_parts(s.take(k as int)).0,
            rel@.subrange(start as int, k as int) == split_parts(s.take(k as int)).1,
        decreases end - k,
    {
        let c = rel.get_char(k);
        assert(s.take(k + 1).drop_last() =~= s.take(k as int));
        assert(s.take(k + 1).last() == c);
        if c == '/' || c == '\\' {
            if k > start {
                let piece = rel.substring_char(start, k);
                let ghost before = out@;
                out.push(String::from_str(piece));
                assert(strs_m(out@) =~= strs_m(before).push(piece@));
            }
            start = k + 1;
            assert(rel@.subrange(start as int, k + 1) =~= Seq::<char>::empty());
        } else {
            assert(rel@.subrange(start as int, k + 1) =~= rel@.subrange(start as int, k as int).push(c));
        }
        k += 1;
    }
    assert(s.take(end as int) =~= s);
    if end > start {
        let piece = rel.substring_char(start, end);
        let ghost before = out@;
        out.push(String::from_str(piece));
        assert(strs_m(out@) =~= strs_m(before).push(piece@));
    }
    out
}

} // verus!
