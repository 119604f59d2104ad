//! The intermediate representation and its passes.
//!
//! The pipeline: lower to SSA → optimise → insert refcounts → emit. Everything here
//! consumes what earlier stages already worked out and re-derives nothing.

pub mod balance;
pub mod effects;
pub mod opt;
pub mod pipeline;
pub mod refcount;
pub mod ssa;
pub mod vset;

use opt::{optimized, purity_of};
use refcount::rc_inserted;
use ssa::Program;
use vstd::prelude::*;

verus! {

/// Which stage of the pipeline to stop at.
#[derive(Debug, Clone, Copy, PartialEq, Eq, Structural)]
pub enum Stage {
    /// Straight out of lowering, before any pass.
    Lowered,
    /// After the optimiser.
    Optimised,
    /// After refcount insertion: the IR that would be emitted.
    Final,
}

/// `b` is what the optimiser makes of `a`.
pub open spec fn optimised(a: Program, b: Program) -> bool {
    &&& b.wf()
    &&& b.pure_natives == a.pure_natives
    &&& b.funcs.len() == a.funcs.len()
    &&& exists|pm: Map<Seq<char>, bool>|
        {
            &&& purity_of(a, pm)
            &&& forall|i: int|
                0 <= i < a.funcs.len() ==> optimized(a.funcs@[i], #[trigger] b.funcs@[i], pm, a.pure_natives@)
        }
}

/// `b` is `a` with reference counts inserted into every function.
pub open spec fn counted(a: Program, b: Program) -> bool {
    &&& b.wf()
    &&& b.pure_natives == a.pure_natives
    &&& b.funcs.len() == a.funcs.len()
    &&& forall|i: int| 0 <= i < a.funcs.len() ==> rc_inserted(a.funcs@[i], #[trigger] b.funcs@[i])
}

/// Run the IR pipeline over a lowered program to the requested stage: optimise, then
/// insert reference counts.
pub fn compile(lowered: Program, stage: Stage) -> (r: Program)
    requires
        lowered.wf(),
    ensures
        stage == Stage::Lowered ==> r == lowered,
        stage == Stage::Optimised ==> optimised(lowered, r),
        stage == Stage::Final ==> exists|mid: Program| optimised(lowered, mid) && counted(mid, r),
{
    let mut program = lowered;
    if stage == Stage::Lowered {
        return program;
    }
    opt::optimize(&mut program);
    if stage == Stage::Optimised {
        return program;
    }
    let ghost mid = program;
    refcount::insert(&mut program);
    assert(optimised(lowered, mid) && counted(mid, program));
    program
}

} // verus!
