//! Where the toolchain keeps its runtime archives, under `lib/`, and its `stdlib/`.
//!
//! The root is found at run time, never baked in: a compile-time path describes the
//! machine that built the compiler, not the one running it. Finding it is the caller's
//! business; this names what lies under it.

use vstd::prelude::*;

verus! {

/// A directory under `dir`: `dir/name`, with one separator between them.
pub open spec fn join_path(dir: Seq<char>, name: Seq<char>) -> Seq<char> {
    if dir.len() == 0 {
        name
    } else if dir.last() == '/' {
        dir + name
    } else {
        dir + "/"@ + name
    }
}

/// The toolchain's root directory.
#[derive(Debug)]
pub struct Sysroot(String);

/// `dir` joined with `name`.
fn join(dir: &String, name: &str) -> (p: String)
    ensures
        p@ == join_path(dir@, name@),
{
    let n = dir.as_str().unicode_len();
    if n == 0 {
        String::from_str(name)
    } else {
        let mut p = dir.clone();
        if dir.as_str().get_char(n - 1) != '/' {
            p.append("/");
            proof {
                reveal_strlit("/");
            }
        }
        p.append(name);
        p
    }
}

impl Sysroot {
    /// The root directory's path.
    pub closed spec fn dir(&self) -> Seq<char> {
        self.0@
    }

    /// The toolchain rooted at `root`.
    pub fn at(root: String) -> (s: Sysroot)
        ensures
            s.dir() == root@,
    {
        Sysroot(root)
    }

    pub fn root(&self) -> (r: &String)
        ensures
            r@ == self.dir(),
    {
        &self.0
    }

    /// Where the prebuilt runtime archives live.
    pub fn lib_dir(&self) -> (p: String)
        ensures
            p@ == join_path(self.dir(), "lib"@),
    {
        join(&self.0, "lib")
    }

    /// The stdlib's source tree.
    pub fn stdlib(&self) -> (p: String)
        ensures
            p@ == join_path(self.dir(), "stdlib"@),
    {
        join(&self.0, "stdlib")
    }
}

} // verus!
