//! The Neon compiler's front end and IR passes, with their contracts.

pub mod ast;
pub mod bench;
pub mod ir;
pub mod lexer;
pub mod lsp;
pub mod parser;
pub mod source;
pub mod stdlib;
pub mod sysroot;
pub mod typecheck;

use vstd::prelude::*;

verus! {

/// The version of this toolchain.
pub fn version() -> (v: &'static str)
    ensures
        v@ == "0.1.0"@,
{
    "0.1.0"
}

} // verus!
