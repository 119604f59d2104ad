//! The pipeline's stages have one outcome each.
//!
//! `optimised` and `counted` relate a program to what a stage makes of it. Each relates a
//! program to a single result, up to which vectors hold the instructions: the result's
//! every block has the same id, parameters, terminator and instructions. So what
//! `compile` returns for a stage is what running the stages one after another returns.

use super::effects::{claims_le, post_fixpoint, pure_in};
use super::opt::{
    any_folds, any_removable, bool_consts, dce_rel, drop_rel, fold_rel, folded, inst_fold, int_consts,
    keeps_reachable, lemma_filter_all, optimized, pass_step, purity_of, reachable_ids, removable, same_header,
    used_set, edge, is_path,
};
use super::refcount::{
    bases, blocks_bases, counted_values, defs_of, dying_set, edges, fixpoint, is_pred, least_fixpoint, live_in,
    live_out, live_step, moved_into, out_of, pos_of, post_fixpoint as live_post_fixpoint, raw_out, rc_block,
    rc_inserted, uses_of,
};
use super::ssa::{Block, Func, Inst, Program};
use super::{counted, optimised};
use vstd::prelude::*;

verus! {

/// Two blocks with the same id, parameters, terminator and instructions.
pub open spec fn same_block(a: Block, b: Block) -> bool {
    &&& a.id == b.id
    &&& a.params == b.params
    &&& a.term == b.term
    &&& a.insts@ == b.insts@
}

/// Two runs of blocks that agree block by block.
pub open spec fn same_blocks(a: Seq<Block>, b: Seq<Block>) -> bool {
    &&& a.len() == b.len()
    &&& forall|i: int| 0 <= i < a.len() ==> same_block(#[trigger] a[i], b[i])
}

/// Two functions that agree in everything but which vectors hold their instructions.
pub open spec fn same_func(a: Func, b: Func) -> bool {
    &&& same_header(a, b)
    &&& same_blocks(a.blocks@, b.blocks@)
}

/// Two programs that agree function by function.
pub open spec fn same_program(a: Program, b: Program) -> bool {
    &&& a.pure_natives == b.pure_natives
    &&& a.funcs.len() == b.funcs.len()
    &&& forall|i: int| 0 <= i < a.funcs.len() ==> same_func(#[trigger] a.funcs@[i], b.funcs@[i])
}

/// Inserting counts has one outcome.
pub proof fn lemma_one_counted(a: Program, b1: Program, b2: Program)
    requires
        counted(a, b1),
        counted(a, b2),
    ensures
        same_program(b1, b2),
{
    assert forall|i: int| 0 <= i < b1.funcs.len() implies same_func(#[trigger] b1.funcs@[i], b2.funcs@[i]) by {
        let f = a.funcs@[i];
        assert(rc_inserted(f, b1.funcs@[i]));
        assert(rc_inserted(f, b2.funcs@[i]));
        assert forall|j: int| 0 <= j < b1.funcs@[i].blocks.len() implies same_block(
            #[trigger] b1.funcs@[i].blocks@[j],
            b2.funcs@[i].blocks@[j],
        ) by {
            assert(b1.funcs@[i].blocks@[j].id == f.blocks@[j].id);
        }
    }
}

/// The purity verdicts of a program are determined by it.
proof fn lemma_one_purity(a: Program, p1: Map<Seq<char>, bool>, p2: Map<Seq<char>, bool>)
    requires
        purity_of(a, p1),
        purity_of(a, p2),
    ensures
        p1 == p2,
{
    assert(post_fixpoint(a.funcs@, a.pure_natives@, p1));
    assert(post_fixpoint(a.funcs@, a.pure_natives@, p2));
    assert(claims_le(p1, p2));
    assert(claims_le(p2, p1));
    assert forall|n: Seq<char>| #[trigger] p1.contains_key(n) implies p1[n] == p2[n] by {
        assert(pure_in(p1, n) == pure_in(p2, n));
    }
    assert(p1 =~= p2);
}

/// Constants, uses and folding opportunities depend only on what blocks hold.
proof fn lemma_blocks_facts(a: Seq<Block>, b: Seq<Block>, pure: Map<Seq<char>, bool>, natives: Seq<String>)
    requires
        same_blocks(a, b),
    ensures
        int_consts(a) == int_consts(b),
        bool_consts(a) == bool_consts(b),
        used_set(a) == used_set(b),
        any_folds(a) == any_folds(b),
        any_removable(a, pure, natives) == any_removable(b, pure, natives),
    decreases a.len(),
{
    if a.len() > 0 {
        assert(same_blocks(a.drop_last(), b.drop_last())) by {
            assert forall|i: int| 0 <= i < a.drop_last().len() implies same_block(
                #[trigger] a.drop_last()[i],
                b.drop_last()[i],
            ) by {
                assert(same_block(a[i], b[i]));
            }
        }
        lemma_blocks_facts(a.drop_last(), b.drop_last(), pure, natives);
        assert(same_block(a[a.len() - 1], b[b.len() - 1]));
        if any_folds(a) {
            let (i, k) = choose|i: int, k: int|
                0 <= i < a.len() && 0 <= k < a[i].insts.len() && inst_fold(
                    #[trigger] a[i].insts@[k],
                    int_consts(a),
                    bool_consts(a),
                ) is Some;
            assert(same_block(a[i], b[i]));
            assert(b[i].insts@[k] == a[i].insts@[k]);
        }
        if any_folds(b) {
            let (i, k) = choose|i: int, k: int|
                0 <= i < b.len() && 0 <= k < b[i].insts.len() && inst_fold(
                    #[trigger] b[i].insts@[k],
                    int_consts(b),
                    bool_consts(b),
                ) is Some;
            assert(same_block(a[i], b[i]));
            assert(b[i].insts@[k] == a[i].insts@[k]);
        }
        if any_removable(a, pure, natives) {
            let (i, k) = choose|i: int, k: int|
                0 <= i < a.len() && 0 <= k < a[i].insts.len() && removable(
                    #[trigger] a[i].insts@[k],
                    used_set(a),
                    pure,
                    natives,
                );
            assert(same_block(a[i], b[i]));
            assert(b[i].insts@[k] == a[i].insts@[k]);
        }
        if any_removable(b, pure, natives) {
            let (i, k) = choose|i: int, k: int|
                0 <= i < b.len() && 0 <= k < b[i].insts.len() && removable(
                    #[trigger] b[i].insts@[k],
                    used_set(b),
                    pure,
                    natives,
                );
            assert(same_block(a[i], b[i]));
            assert(b[i].insts@[k] == a[i].insts@[k]);
        }
    }
}

/// Which blocks are reachable depends only on ids and terminators.
proof fn lemma_same_reachable(a: Func, b: Func)
    requires
        same_func(a, b),
    ensures
        reachable_ids(a) == reachable_ids(b),
{
    assert forall|x: u32, y: u32| edge(a.blocks@, x, y) == edge(b.blocks@, x, y) by {
        if edge(a.blocks@, x, y) {
            let i = choose|i: int| 0 <= i < a.blocks@.len() && (#[trigger] a.blocks@[i]).id == x && super::ssa::term_successors(a.blocks@[i].term).contains(y);
            assert(same_block(a.blocks@[i], b.blocks@[i]));
        }
        if edge(b.blocks@, x, y) {
            let i = choose|i: int| 0 <= i < b.blocks@.len() && (#[trigger] b.blocks@[i]).id == x && super::ssa::term_successors(b.blocks@[i].term).contains(y);
            assert(same_block(a.blocks@[i], b.blocks@[i]));
        }
    }
    assert forall|q: Seq<u32>| is_path(a.blocks@, q) == is_path(b.blocks@, q) by {
        if is_path(a.blocks@, q) {
            assert forall|i: int| 0 <= i < q.len() - 1 implies #[trigger] edge(b.blocks@, q[i], q[i + 1]) by {
                assert(edge(a.blocks@, q[i], q[i + 1]));
            }
        }
        if is_path(b.blocks@, q) {
            assert forall|i: int| 0 <= i < q.len() - 1 implies #[trigger] edge(a.blocks@, q[i], q[i + 1]) by {
                assert(edge(b.blocks@, q[i], q[i + 1]));
            }
        }
    }
    assert(reachable_ids(a) =~= reachable_ids(b));
}

/// Filtering two runs of blocks that agree, by predicates that agree on them, gives runs
/// that agree.
proof fn lemma_filter_same(a: Seq<Block>, b: Seq<Block>, pa: spec_fn(Block) -> bool, pb: spec_fn(Block) -> bool)
    requires
        same_blocks(a, b),
        forall|i: int| 0 <= i < a.len() ==> pa(#[trigger] a[i]) == pb(b[i]),
    ensures
        same_blocks(a.filter(pa), b.filter(pb)),
    decreases a.len(),
{
    reveal(Seq::filter);
    if a.len() > 0 {
        let a0 = a.drop_last();
        let b0 = b.drop_last();
        assert(same_blocks(a0, b0)) by {
            assert forall|i: int| 0 <= i < a0.len() implies same_block(#[trigger] a0[i], b0[i]) by {
                assert(same_block(a[i], b[i]));
            }
        }
        assert forall|i: int| 0 <= i < a0.len() implies pa(#[trigger] a0[i]) == pb(b0[i]) by {
            assert(pa(a[i]) == pb(b[i]));
        }
        lemma_filter_same(a0, b0, pa, pb);
        assert(pa(a[a.len() - 1]) == pb(b[b.len() - 1]));
        assert(same_block(a[a.len() - 1], b[b.len() - 1]));
        let fa = a0.filter(pa);
        let fb = b0.filter(pb);
        if pa(a.last()) {
            assert forall|i: int| 0 <= i < fa.push(a.last()).len() implies same_block(
                #[trigger] fa.push(a.last())[i],
                fb.push(b.last())[i],
            ) by {
                if i < fa.len() {
                    assert(same_block(fa[i], fb[i]));
                }
            }
        }
    }
}

/// Each pass, run on functions that agree, gives functions that agree.
proof fn lemma_pass_same(c1: Seq<Func>, c2: Seq<Func>, k: int, pure: Map<Seq<char>, bool>, natives: Seq<String>)
    requires
        0 <= k,
        k + 1 < c1.len(),
        k + 1 < c2.len(),
        same_func(c1[k], c2[k]),
        pass_step(c1, k, pure, natives),
        pass_step(c2, k, pure, natives),
    ensures
        same_func(c1[k + 1], c2[k + 1]),
{
    let (x1, y1, x2, y2) = (c1[k], c1[k + 1], c2[k], c2[k + 1]);
    lemma_blocks_facts(x1.blocks@, x2.blocks@, pure, natives);
    if k % 3 == 0 {
        assert(fold_rel(x1, y1) && fold_rel(x2, y2));
        assert forall|i: int| 0 <= i < y1.blocks@.len() implies same_block(#[trigger] y1.blocks@[i], y2.blocks@[i]) by {
            assert(same_block(x1.blocks@[i], x2.blocks@[i]));
            assert(y1.blocks@[i].insts@ == x1.blocks@[i].insts@.map_values(
                |inst: Inst| folded(inst, int_consts(x1.blocks@), bool_consts(x1.blocks@)),
            ));
        }
    } else if k % 3 == 1 {
        assert(dce_rel(x1, y1, pure, natives) && dce_rel(x2, y2, pure, natives));
        assert forall|i: int| 0 <= i < y1.blocks@.len() implies same_block(#[trigger] y1.blocks@[i], y2.blocks@[i]) by {
            assert(same_block(x1.blocks@[i], x2.blocks@[i]));
            assert(y1.blocks@[i].insts@ == x1.blocks@[i].insts@.filter(
                |inst: Inst| !removable(inst, used_set(x1.blocks@), pure, natives),
            ));
        }
    } else {
        assert(drop_rel(x1, y1) && drop_rel(x2, y2));
        lemma_same_reachable(x1, x2);
        assert forall|i: int| 0 <= i < x1.blocks@.len() implies keeps_reachable(x1)(#[trigger] x1.blocks@[i])
            == keeps_reachable(x2)(x2.blocks@[i]) by {
            assert(same_block(x1.blocks@[i], x2.blocks@[i]));
        }
        lemma_filter_same(x1.blocks@, x2.blocks@, keeps_reachable(x1), keeps_reachable(x2));
    }
}

proof fn lemma_same_trans(a: Func, b: Func, c: Func)
    requires
        same_func(a, b),
        same_func(b, c),
    ensures
        same_func(a, c),
{
    assert forall|i: int| 0 <= i < a.blocks@.len() implies same_block(#[trigger] a.blocks@[i], c.blocks@[i]) by {
        assert(same_block(a.blocks@[i], b.blocks@[i]));
        assert(same_block(b.blocks@[i], c.blocks@[i]));
    }
}

proof fn lemma_same_sym(a: Func, b: Func)
    requires
        same_func(a, b),
    ensures
        same_func(b, a),
{
    assert forall|i: int| 0 <= i < b.blocks@.len() implies same_block(#[trigger] b.blocks@[i], a.blocks@[i]) by {
        assert(same_block(a.blocks@[i], b.blocks@[i]));
    }
}

/// A function none of the passes would change.
pub open spec fn settled(x: Func, pure: Map<Seq<char>, bool>, natives: Seq<String>) -> bool {
    &&& !any_folds(x.blocks@)
    &&& !any_removable(x.blocks@, pure, natives)
    &&& forall|i: int| 0 <= i < x.blocks.len() ==> reachable_ids(x).contains((#[trigger] x.blocks@[i]).id)
}

/// A pass run on a function that agrees with one that pass would leave alone gives one that
/// still agrees.
proof fn lemma_pass_settled(c: Seq<Func>, k: int, x: Func, pure: Map<Seq<char>, bool>, natives: Seq<String>)
    requires
        0 <= k,
        k + 1 < c.len(),
        same_func(c[k], x),
        k % 3 == 0 ==> !any_folds(x.blocks@),
        k % 3 == 1 ==> !any_removable(x.blocks@, pure, natives),
        k % 3 == 2 ==> forall|i: int| 0 <= i < x.blocks.len() ==> reachable_ids(x).contains((#[trigger] x.blocks@[i]).id),
        pass_step(c, k, pure, natives),
    ensures
        same_func(c[k + 1], x),
{
    let (a, b) = (c[k], c[k + 1]);
    lemma_blocks_facts(a.blocks@, x.blocks@, pure, natives);
    if k % 3 == 0 {
        assert(fold_rel(a, b));
        assert forall|i: int| 0 <= i < b.blocks@.len() implies same_block(#[trigger] b.blocks@[i], x.blocks@[i]) by {
            assert(same_block(a.blocks@[i], x.blocks@[i]));
            let ins = a.blocks@[i].insts@;
            assert forall|j: int| 0 <= j < ins.len() implies folded(
                #[trigger] ins[j],
                int_consts(a.blocks@),
                bool_consts(a.blocks@),
            ) == ins[j] by {
                if inst_fold(a.blocks@[i].insts@[j], int_consts(a.blocks@), bool_consts(a.blocks@)) is Some {
                    assert(any_folds(a.blocks@));
                }
            }
            assert(b.blocks@[i].insts@ =~= ins);
        }
    } else if k % 3 == 1 {
        assert(dce_rel(a, b, pure, natives));
        assert forall|i: int| 0 <= i < b.blocks@.len() implies same_block(#[trigger] b.blocks@[i], x.blocks@[i]) by {
            assert(same_block(a.blocks@[i], x.blocks@[i]));
            let ins = a.blocks@[i].insts@;
            let pred = |inst: Inst| !removable(inst, used_set(a.blocks@), pure, natives);
            assert forall|j: int| 0 <= j < ins.len() implies pred(ins[j]) by {
                if removable(a.blocks@[i].insts@[j], used_set(a.blocks@), pure, natives) {
                    assert(any_removable(a.blocks@, pure, natives));
                }
            }
            lemma_filter_all(ins, pred);
        }
    } else {
        assert(drop_rel(a, b));
        lemma_same_reachable(a, x);
        assert forall|i: int| 0 <= i < a.blocks@.len() implies keeps_reachable(a)(#[trigger] a.blocks@[i]) by {
            assert(same_block(a.blocks@[i], x.blocks@[i]));
            assert(reachable_ids(x).contains(x.blocks@[i].id));
        }
        lemma_filter_all(a.blocks@, keeps_reachable(a));
        assert(b.blocks@ == a.blocks@);
    }
}

proof fn lemma_chain_prefix(c1: Seq<Func>, c2: Seq<Func>, k: int, pure: Map<Seq<char>, bool>, natives: Seq<String>)
    requires
        0 <= k < c1.len(),
        k < c2.len(),
        c1[0] == c2[0],
        forall|j: int| 0 <= j < c1.len() - 1 ==> #[trigger] pass_step(c1, j, pure, natives),
        forall|j: int| 0 <= j < c2.len() - 1 ==> #[trigger] pass_step(c2, j, pure, natives),
    ensures
        same_func(c1[k], c2[k]),
    decreases k,
{
    if k == 0 {
        assert(same_blocks(c1[0].blocks@, c2[0].blocks@));
    } else {
        lemma_chain_prefix(c1, c2, k - 1, pure, natives);
        assert(pass_step(c1, k - 1, pure, natives));
        assert(pass_step(c2, k - 1, pure, natives));
        lemma_pass_same(c1, c2, k - 1, pure, natives);
    }
}

proof fn lemma_chain_settled(c: Seq<Func>, k: int, from: int, x: Func, pure: Map<Seq<char>, bool>, natives: Seq<String>)
    requires
        0 <= from <= k < c.len(),
        same_func(c[from], x),
        settled(x, pure, natives),
        forall|j: int| 0 <= j < c.len() - 1 ==> #[trigger] pass_step(c, j, pure, natives),
    ensures
        same_func(c[k], x),
    decreases k - from,
{
    if k > from {
        lemma_chain_settled(c, k - 1, from, x, pure, natives);
        assert(pass_step(c, k - 1, pure, natives));
        lemma_pass_settled(c, k - 1, x, pure, natives);
    }
}

proof fn lemma_chain_ends(c1: Seq<Func>, c2: Seq<Func>, a: Func, pure: Map<Seq<char>, bool>, natives: Seq<String>)
    requires
        c1.len() <= c2.len(),
        c1.len() >= 4,
        c1.len() % 3 == 1,
        c1[0] == a,
        c2[0] == a,
        forall|k: int| 0 <= k < c1.len() - 1 ==> #[trigger] pass_step(c1, k, pure, natives),
        forall|k: int| 0 <= k < c2.len() - 1 ==> #[trigger] pass_step(c2, k, pure, natives),
        !any_folds(c1[c1.len() - 4].blocks@),
        !any_removable(c1[c1.len() - 3].blocks@, pure, natives),
        forall|i: int|
            0 <= i < c1[c1.len() - 2].blocks.len() ==> reachable_ids(c1[c1.len() - 2]).contains(
                (#[trigger] c1[c1.len() - 2].blocks@[i]).id,
            ),
    ensures
        same_func(c1.last(), c2.last()),
{
    let l = c1.len() as int;
    let x = c1[l - 4];
    assert(same_blocks(x.blocks@, x.blocks@));
    assert(pass_step(c1, l - 4, pure, natives));
    lemma_pass_settled(c1, l - 4, x, pure, natives);
    let y = c1[l - 3];
    assert(same_blocks(y.blocks@, y.blocks@));
    assert(pass_step(c1, l - 3, pure, natives));
    lemma_pass_settled(c1, l - 3, y, pure, natives);
    let z = c1[l - 2];
    assert(same_blocks(z.blocks@, z.blocks@));
    assert(pass_step(c1, l - 2, pure, natives));
    lemma_pass_settled(c1, l - 2, z, pure, natives);
    // c1[l-3] ~ x, c1[l-2] ~ y, c1[l-1] ~ z.
    lemma_same_trans(z, y, x);
    lemma_same_sym(y, x);
    lemma_blocks_facts(y.blocks@, x.blocks@, pure, natives);
    lemma_same_reachable(z, x);
    assert forall|i: int| 0 <= i < x.blocks.len() implies reachable_ids(x).contains((#[trigger] x.blocks@[i]).id) by {
        assert(same_block(z.blocks@[i], x.blocks@[i]));
        assert(reachable_ids(z).contains(z.blocks@[i].id));
    }
    assert(settled(x, pure, natives));
    lemma_chain_prefix(c1, c2, l - 4, pure, natives);
    lemma_chain_settled(c2, c2.len() - 1, l - 4, x, pure, natives);
    lemma_same_trans(c1[l - 1], z, x);
    lemma_same_sym(c2.last(), x);
    lemma_same_trans(c1.last(), x, c2.last());
}

/// Optimising a function under given purity verdicts has one outcome.
proof fn lemma_one_optimized(a: Func, b1: Func, b2: Func, pure: Map<Seq<char>, bool>, natives: Seq<String>)
    requires
        optimized(a, b1, pure, natives),
        optimized(a, b2, pure, natives),
    ensures
        same_func(b1, b2),
{
    let c1 = choose|chain: Seq<Func>|
        {
            &&& chain.len() >= 4
            &&& chain.len() % 3 == 1
            &&& chain[0] == a
            &&& chain.last() == b1
            &&& forall|k: int| 0 <= k < chain.len() - 1 ==> #[trigger] pass_step(chain, k, pure, natives)
            &&& !any_folds(chain[chain.len() - 4].blocks@)
            &&& !any_removable(chain[chain.len() - 3].blocks@, pure, natives)
            &&& forall|i: int|
                0 <= i < chain[chain.len() - 2].blocks.len() ==> reachable_ids(chain[chain.len() - 2]).contains(
                    (#[trigger] chain[chain.len() - 2].blocks@[i]).id,
                )
        };
    let c2 = choose|chain: Seq<Func>|
        {
            &&& chain.len() >= 4
            &&& chain.len() % 3 == 1
            &&& chain[0] == a
            &&& chain.last() == b2
            &&& forall|k: int| 0 <= k < chain.len() - 1 ==> #[trigger] pass_step(chain, k, pure, natives)
            &&& !any_folds(chain[chain.len() - 4].blocks@)
            &&& !any_removable(chain[chain.len() - 3].blocks@, pure, natives)
            &&& forall|i: int|
                0 <= i < chain[chain.len() - 2].blocks.len() ==> reachable_ids(chain[chain.len() - 2]).contains(
                    (#[trigger] chain[chain.len() - 2].blocks@[i]).id,
                )
        };
    if c1.len() <= c2.len() {
        lemma_chain_ends(c1, c2, a, pure, natives);
    } else {
        lemma_chain_ends(c2, c1, a, pure, natives);
        lemma_same_sym(b2, b1);
    }
}

/// The optimiser has one outcome: two results of optimising one program agree function by
/// function, block by block.
pub proof fn lemma_one_optimised(a: Program, b1: Program, b2: Program)
    requires
        optimised(a, b1),
        optimised(a, b2),
    ensures
        same_program(b1, b2),
{
    let p1 = choose|pm: Map<Seq<char>, bool>|
        {
            &&& purity_of(a, pm)
            &&& forall|i: int|
                0 <= i < a.funcs.len() ==> optimized(a.funcs@[i], #[trigger] b1.funcs@[i], pm, a.pure_natives@)
        };
    let p2 = choose|pm: Map<Seq<char>, bool>|
        {
            &&& purity_of(a, pm)
            &&& forall|i: int|
                0 <= i < a.funcs.len() ==> optimized(a.funcs@[i], #[trigger] b2.funcs@[i], pm, a.pure_natives@)
        };
    lemma_one_purity(a, p1, p2);
    assert forall|i: int| 0 <= i < b1.funcs.len() implies same_func(#[trigger] b1.funcs@[i], b2.funcs@[i]) by {
        assert(optimized(a.funcs@[i], b1.funcs@[i], p1, a.pure_natives@));
        assert(optimized(a.funcs@[i], b2.funcs@[i], p1, a.pure_natives@));
        lemma_one_optimized(a.funcs@[i], b1.funcs@[i], b2.funcs@[i], p1, a.pure_natives@);
    }
}

proof fn lemma_blocks_bases_same(a: Seq<Block>, b: Seq<Block>, p: Set<u32>)
    requires
        same_blocks(a, b),
    ensures
        blocks_bases(a, p) == blocks_bases(b, p),
    decreases a.len(),
{
    if a.len() > 0 {
        assert(same_blocks(a.drop_last(), b.drop_last())) by {
            assert forall|i: int| 0 <= i < a.drop_last().len() implies same_block(
                #[trigger] a.drop_last()[i],
                b.drop_last()[i],
            ) by {
                assert(same_block(a[i], b[i]));
            }
        }
        lemma_blocks_bases_same(a.drop_last(), b.drop_last(), p);
        assert(same_block(a[a.len() - 1], b[b.len() - 1]));
    }
}

/// Block positions agree between well-formed functions with the same blocks.
proof fn lemma_pos_same(f1: Func, f2: Func, j: int)
    requires
        f1.cfg_ok(),
        f2.cfg_ok(),
        same_func(f1, f2),
        0 <= j < f1.blocks.len(),
    ensures
        pos_of(f1, f1.blocks@[j].id) == j,
        pos_of(f2, f1.blocks@[j].id) == j,
{
    assert(same_block(f1.blocks@[j], f2.blocks@[j]));
    super::refcount::lemma_pos_of(f1, j);
    super::refcount::lemma_pos_of(f2, j);
}

/// The dataflow equations agree between well-formed functions with the same blocks.
proof fn lemma_step_same(f1: Func, f2: Func, l: Seq<Set<u32>>, i: int)
    requires
        f1.cfg_ok(),
        f2.cfg_ok(),
        same_func(f1, f2),
        0 <= i < f1.blocks.len(),
    ensures
        raw_out(f1, l, i) == raw_out(f2, l, i),
        live_step(f1, l, i) == live_step(f2, l, i),
        out_of(f1, l, i) == out_of(f2, l, i),
{
    let b1 = f1.blocks@[i];
    let b2 = f2.blocks@[i];
    assert(same_block(b1, b2));
    let t = b1.term;
    lemma_blocks_bases_same(f1.blocks@, f2.blocks@, counted_values(f1));
    assert(counted_values(f1) =~= counted_values(f2));
    assert(bases(f1) == bases(f2));
    assert forall|k: int| 0 <= k < edges(t).len() implies pos_of(f1, #[trigger] edges(t)[k].0) == pos_of(
        f2,
        edges(t)[k].0,
    ) by {
        super::refcount::lemma_edge_target(f1, i, k);
        let j = pos_of(f1, edges(t)[k].0);
        lemma_pos_same(f1, f2, j);
    }
    assert(raw_out(f1, l, i) =~= raw_out(f2, l, i));
    assert(defs_of(b1) =~= defs_of(b2));
    assert(uses_of(b1, counted_values(f1)) =~= uses_of(b2, counted_values(f2)));
}

/// Liveness agrees between well-formed functions with the same blocks.
proof fn lemma_live_same(f1: Func, f2: Func)
    requires
        f1.cfg_ok(),
        f2.cfg_ok(),
        same_func(f1, f2),
    ensures
        live_in(f1) == live_in(f2),
        live_out(f1) == live_out(f2),
{
    assert forall|l: Seq<Set<u32>>| live_post_fixpoint(f1, l) == live_post_fixpoint(f2, l) by {
        assert forall|i: int| 0 <= i < f1.blocks.len() implies live_step(f1, l, i) == live_step(f2, l, i) by {
            lemma_step_same(f1, f2, l, i);
        }
    }
    assert forall|l: Seq<Set<u32>>| fixpoint(f1, l) == fixpoint(f2, l) by {
        assert forall|i: int| 0 <= i < f1.blocks.len() implies live_step(f1, l, i) == live_step(f2, l, i) by {
            lemma_step_same(f1, f2, l, i);
        }
    }
    super::refcount::lemma_fixpoint_exists(f1);
    assert(least_fixpoint(f2, live_in(f1)));
    super::refcount::lemma_least_unique(f2, live_in(f1));
    assert forall|i: int| 0 <= i < f1.blocks.len() implies #[trigger] live_out(f1)[i] == live_out(f2)[i] by {
        lemma_step_same(f1, f2, live_in(f1), i);
    }
    assert(live_out(f1) =~= live_out(f2));
}

/// Counts inserted into well-formed functions with the same blocks agree.
proof fn lemma_rc_block_same(f1: Func, f2: Func, i: int)
    requires
        f1.cfg_ok(),
        f2.cfg_ok(),
        same_func(f1, f2),
        0 <= i < f1.blocks.len(),
    ensures
        rc_block(f1, i) == rc_block(f2, i),
        counted_values(f1) == counted_values(f2),
{
    lemma_blocks_bases_same(f1.blocks@, f2.blocks@, counted_values(f1));
    assert(counted_values(f1) =~= counted_values(f2));
    lemma_live_same(f1, f2);
    assert(same_block(f1.blocks@[i], f2.blocks@[i]));
    assert forall|j: int| is_pred(f1, j, i) == is_pred(f2, j, i) by {
        if 0 <= j < f1.blocks.len() {
            assert(same_block(f1.blocks@[j], f2.blocks@[j]));
        }
    }
    assert forall|v: u32| moved_into(f1, i).contains(v) == moved_into(f2, i).contains(v) by {
        if moved_into(f1, i).contains(v) {
            let (j, k) = choose|j: int, k: int|
                0 <= j < f1.blocks.len() && 0 <= k < edges(f1.blocks@[j].term).len() && edges(
                    f1.blocks@[j].term,
                )[k].0 == f1.blocks@[i].id && #[trigger] edges(f1.blocks@[j].term)[k].1.contains(v);
            assert(same_block(f1.blocks@[j], f2.blocks@[j]));
            assert(edges(f2.blocks@[j].term)[k].1.contains(v));
        }
        if moved_into(f2, i).contains(v) {
            let (j, k) = choose|j: int, k: int|
                0 <= j < f2.blocks.len() && 0 <= k < edges(f2.blocks@[j].term).len() && edges(
                    f2.blocks@[j].term,
                )[k].0 == f2.blocks@[i].id && #[trigger] edges(f2.blocks@[j].term)[k].1.contains(v);
            assert(same_block(f1.blocks@[j], f2.blocks@[j]));
            assert(edges(f1.blocks@[j].term)[k].1.contains(v));
        }
    }
    assert(moved_into(f1, i) =~= moved_into(f2, i));
    assert(dying_set(f1, i) =~= dying_set(f2, i));
}

/// Inserting counts into programs that agree gives programs that agree.
proof fn lemma_counted_same(m1: Program, m2: Program, r1: Program, r2: Program)
    requires
        m1.wf(),
        m2.wf(),
        same_program(m1, m2),
        counted(m1, r1),
        counted(m2, r2),
    ensures
        same_program(r1, r2),
{
    assert forall|i: int| 0 <= i < r1.funcs.len() implies same_func(#[trigger] r1.funcs@[i], r2.funcs@[i]) by {
        let (f1, f2) = (m1.funcs@[i], m2.funcs@[i]);
        assert(same_func(f1, f2));
        assert(rc_inserted(f1, r1.funcs@[i]));
        assert(rc_inserted(f2, r2.funcs@[i]));
        assert forall|j: int| 0 <= j < r1.funcs@[i].blocks.len() implies same_block(
            #[trigger] r1.funcs@[i].blocks@[j],
            r2.funcs@[i].blocks@[j],
        ) by {
            assert(same_block(f1.blocks@[j], f2.blocks@[j]));
            lemma_rc_block_same(f1, f2, j);
        }
    }
}

/// `compile` is the pipeline run stage by stage: stopping after the optimiser agrees with
/// what optimising the program gives, and running to the end agrees with what optimising
/// and then inserting counts gives.
pub proof fn lemma_compile_is_the_pipeline(lowered: Program, opt: Program, fin: Program, r: Program)
    requires
        lowered.wf(),
        optimised(lowered, opt),
        counted(opt, fin),
    ensures
        optimised(lowered, r) ==> same_program(r, opt),
        (exists|mid: Program| optimised(lowered, mid) && counted(mid, r)) ==> same_program(r, fin),
{
    if optimised(lowered, r) {
        lemma_one_optimised(lowered, r, opt);
    }
    if exists|mid: Program| optimised(lowered, mid) && counted(mid, r) {
        let mid = choose|mid: Program| optimised(lowered, mid) && counted(mid, r);
        lemma_one_optimised(lowered, mid, opt);
        lemma_counted_same(mid, opt, r, fin);
    }
}

} // verus!
