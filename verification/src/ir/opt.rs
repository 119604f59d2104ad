//! The optimiser: a pass pipeline over SSA, run to a fixpoint.
//!
//! The always-on set is small and correctness-preserving: constant folding, dead-code
//! elimination (guided by the effect analysis: a call that is not proven pure, a closure
//! call and an index are kept even when their result is unused), and CFG cleanup
//! (removing unreachable blocks).

use super::effects::{analyze, op_is_kept, op_must_stay, Purity};
use super::ssa::{
    arm_args, op_operands, term_operands, term_successors, Block, BlockId, Func, Inst, Op, PrimOp,
    Program, Target, Term, Value,
};
use std::collections::{HashMap, HashSet};
use vstd::prelude::*;

verus! {

broadcast use vstd::std_specs::hash::group_hash_axioms;

// ---- operands ----

/// Every value an operation reads, in operand order.
pub fn op_operand_values(op: &Op) -> (vs: Vec<Value>)
    ensures
        vs@ == op_operands(*op),
{
    match op {
        Op::Prim(_, vs) | Op::MakeTuple(vs) | Op::MakeList(vs) => vs.clone(),
        Op::Call { args, .. } | Op::Native { args, .. } => args.clone(),
        Op::CallClosure { callee, args } => {
            let mut out = vec![*callee];
            let mut i: usize = 0;
            while i < args.len()
                invariant
                    i <= args.len(),
                    out@ == seq![*callee] + args@.take(i as int),
                decreases args.len() - i,
            {
                out.push(args[i]);
                assert(args@.take(i + 1) == args@.take(i as int).push(args@[i as int]));
                i += 1;
            }
            assert(args@.take(args.len() as int) == args@);
            out
        },
        Op::MakeClosure { captures, .. } => captures.clone(),
        Op::MakeRecord { fields, .. } => {
            let mut out = Vec::new();
            let mut i: usize = 0;
            while i < fields.len()
                invariant
                    i <= fields.len(),
                    out@ == fields@.take(i as int).map_values(|p: (String, Value)| p.1),
                decreases fields.len() - i,
            {
                out.push(fields[i].1);
                assert(fields@.take(i + 1) == fields@.take(i as int).push(fields@[i as int]));
                i += 1;
            }
            assert(fields@.take(fields.len() as int) == fields@);
            out
        },
        Op::Field { base, .. } | Op::Elem { base, .. } => vec![*base],
        Op::Index { base, index } => vec![*base, *index],
        Op::Cast(v) | Op::IsNull(v) | Op::IsErr(v) | Op::UnwrapOk(v) | Op::UnwrapErr(v)
        | Op::IsVariant { value: v, .. } | Op::Retain(v) | Op::Release(v) => vec![*v],
        Op::ConstI64(_) | Op::ConstF64(_) | Op::ConstBool(_) | Op::ConstStr(_) | Op::ConstNull
        | Op::ConstUnit | Op::ConstAtom(_) => Vec::new(),
    }
}

/// Append `src` to `out`.
fn push_all(out: &mut Vec<Value>, src: &Vec<Value>)
    ensures
        final(out)@ == old(out)@ + src@,
{
    let mut i: usize = 0;
    while i < src.len()
        invariant
            i <= src.len(),
            out@ == old(out)@ + src@.take(i as int),
        decreases src.len() - i,
    {
        out.push(src[i]);
        assert(src@.take(i + 1) == src@.take(i as int).push(src@[i as int]));
        i += 1;
    }
    assert(src@.take(src.len() as int) == src@);
}

/// Every value a terminator reads: a returned or thrown value, a branch condition or
/// switch scrutinee, and the arguments of every outgoing edge.
pub fn term_operand_values(term: &Term) -> (vs: Vec<Value>)
    ensures
        vs@ == term_operands(*term),
{
    let mut out: Vec<Value> = Vec::new();
    match term {
        Term::Ret(Some(v)) | Term::Throw(v) => {
            out.push(*v);
        },
        Term::Ret(None) | Term::Unreachable => {},
        Term::Jump(t) => {
            push_all(&mut out, &t.args);
        },
        Term::Branch { cond, then, els } => {
            out.push(*cond);
            push_all(&mut out, &then.args);
            push_all(&mut out, &els.args);
        },
        Term::Switch { on, arms, default } => {
            out.push(*on);
            let mut i: usize = 0;
            while i < arms.len()
                invariant
                    i <= arms.len(),
                    out@ == seq![*on] + arm_args(arms@.take(i as int)),
                decreases arms.len() - i,
            {
                push_all(&mut out, &arms[i].1.args);
                assert(arms@.take(i + 1).drop_last() == arms@.take(i as int));
                i += 1;
            }
            assert(arms@.take(arms.len() as int) == arms@);
            push_all(&mut out, &default.args);
        },
    }
    out
}

// ---- constant folding ----

/// The integer constants a run of instructions defines, on top of `m`: the last
/// definition of a value wins.
pub open spec fn int_defs(insts: Seq<Inst>, m: Map<Value, i64>) -> Map<Value, i64>
    decreases insts.len(),
{
    if insts.len() == 0 {
        m
    } else {
        let m1 = int_defs(insts.drop_last(), m);
        match (insts.last().result, insts.last().op) {
            (Some(v), Op::ConstI64(n)) => m1.insert(v, n),
            _ => m1,
        }
    }
}

/// The boolean constants a run of instructions defines, on top of `m`.
pub open spec fn bool_defs(insts: Seq<Inst>, m: Map<Value, bool>) -> Map<Value, bool>
    decreases insts.len(),
{
    if insts.len() == 0 {
        m
    } else {
        let m1 = bool_defs(insts.drop_last(), m);
        match (insts.last().result, insts.last().op) {
            (Some(v), Op::ConstBool(x)) => m1.insert(v, x),
            _ => m1,
        }
    }
}

/// The integer constants of a function's blocks, in block order.
pub open spec fn int_consts(blocks: Seq<Block>) -> Map<Value, i64>
    decreases blocks.len(),
{
    if blocks.len() == 0 {
        Map::empty()
    } else {
        int_defs(blocks.last().insts@, int_consts(blocks.drop_last()))
    }
}

/// The boolean constants of a function's blocks, in block order.
pub open spec fn bool_consts(blocks: Seq<Block>) -> Map<Value, bool>
    decreases blocks.len(),
{
    if blocks.len() == 0 {
        Map::empty()
    } else {
        bool_defs(blocks.last().insts@, bool_consts(blocks.drop_last()))
    }
}

/// The negation of `n`, unless it overflows (`n` is `i64::MIN`): that trap is the
/// runtime's to raise.
pub open spec fn checked_neg(n: i64) -> Option<i64> {
    if n == i64::MIN {
        None
    } else {
        Some((-n) as i64)
    }
}

/// The constant a binary op on two integers folds to; `None` where the runtime must
/// decide (overflow, division by zero) or the op is not an integer op.
pub open spec fn int_fold(op: PrimOp, x: i64, y: i64) -> Option<Op> {
    match op {
        PrimOp::Add => match x.checked_add(y) {
            Some(z) => Some(Op::ConstI64(z)),
            None => None,
        },
        PrimOp::Sub => match x.checked_sub(y) {
            Some(z) => Some(Op::ConstI64(z)),
            None => None,
        },
        PrimOp::Mul => match x.checked_mul(y) {
            Some(z) => Some(Op::ConstI64(z)),
            None => None,
        },
        PrimOp::Div => match x.checked_div(y) {
            Some(z) => Some(Op::ConstI64(z)),
            None => None,
        },
        PrimOp::Rem => match x.checked_rem(y) {
            Some(z) => Some(Op::ConstI64(z)),
            None => None,
        },
        PrimOp::Band => Some(Op::ConstI64(x & y)),
        PrimOp::Bor => Some(Op::ConstI64(x | y)),
        PrimOp::Bxor => Some(Op::ConstI64(x ^ y)),
        PrimOp::Eq => Some(Op::ConstBool(x == y)),
        PrimOp::Ne => Some(Op::ConstBool(x != y)),
        PrimOp::Lt => Some(Op::ConstBool(x < y)),
        PrimOp::Le => Some(Op::ConstBool(x <= y)),
        PrimOp::Gt => Some(Op::ConstBool(x > y)),
        PrimOp::Ge => Some(Op::ConstBool(x >= y)),
        _ => None,
    }
}

/// The constant a binary op on two booleans folds to.
pub open spec fn bool_fold(op: PrimOp, x: bool, y: bool) -> Option<Op> {
    match op {
        PrimOp::And => Some(Op::ConstBool(x && y)),
        PrimOp::Or => Some(Op::ConstBool(x || y)),
        PrimOp::Eq => Some(Op::ConstBool(x == y)),
        PrimOp::Ne => Some(Op::ConstBool(x != y)),
        _ => None,
    }
}

/// What a primitive op on its operands folds to, given the known constants: a unary `Neg`
/// of a known integer other than `i64::MIN` (whose negation overflows, and is left to the
/// runtime), a `Not` of a known boolean, or a binary op whose two operands are both known
/// integers (tried first) or both known booleans.
pub open spec fn prim_fold(
    op: PrimOp,
    args: Seq<Value>,
    ints: Map<Value, i64>,
    bools: Map<Value, bool>,
) -> Option<Op> {
    if op == PrimOp::Neg && args.len() == 1 {
        if ints.contains_key(args[0]) {
            match checked_neg(ints[args[0]]) {
                Some(z) => Some(Op::ConstI64(z)),
                None => None,
            }
        } else {
            None
        }
    } else if op == PrimOp::Not && args.len() == 1 {
        if bools.contains_key(args[0]) {
            Some(Op::ConstBool(!bools[args[0]]))
        } else {
            None
        }
    } else if args.len() == 2 {
        if ints.contains_key(args[0]) && ints.contains_key(args[1]) {
            int_fold(op, ints[args[0]], ints[args[1]])
        } else if bools.contains_key(args[0]) && bools.contains_key(args[1]) {
            bool_fold(op, bools[args[0]], bools[args[1]])
        } else {
            None
        }
    } else {
        None
    }
}

/// What an instruction folds to, if anything.
pub open spec fn inst_fold(inst: Inst, ints: Map<Value, i64>, bools: Map<Value, bool>) -> Option<Op> {
    match inst.op {
        Op::Prim(p, args) => prim_fold(p, args@, ints, bools),
        _ => None,
    }
}

/// An instruction after folding.
pub open spec fn folded(inst: Inst, ints: Map<Value, i64>, bools: Map<Value, bool>) -> Inst {
    match inst_fold(inst, ints, bools) {
        Some(op) => Inst { result: inst.result, op },
        None => inst,
    }
}

fn fold_int(op: PrimOp, x: i64, y: i64) -> (r: Option<Op>)
    ensures
        r == int_fold(op, x, y),
{
    match op {
        PrimOp::Add => match x.checked_add(y) {
            Some(z) => Some(Op::ConstI64(z)),
            None => None,
        },
        PrimOp::Sub => match x.checked_sub(y) {
            Some(z) => Some(Op::ConstI64(z)),
            None => None,
        },
        PrimOp::Mul => match x.checked_mul(y) {
            Some(z) => Some(Op::ConstI64(z)),
            None => None,
        },
        PrimOp::Div => match x.checked_div(y) {
            Some(z) => Some(Op::ConstI64(z)),
            None => None,
        },
        PrimOp::Rem => match x.checked_rem(y) {
            Some(z) => Some(Op::ConstI64(z)),
            None => None,
        },
        PrimOp::Band => Some(Op::ConstI64(x & y)),
        PrimOp::Bor => Some(Op::ConstI64(x | y)),
        PrimOp::Bxor => Some(Op::ConstI64(x ^ y)),
        PrimOp::Eq => Some(Op::ConstBool(x == y)),
        PrimOp::Ne => Some(Op::ConstBool(x != y)),
        PrimOp::Lt => Some(Op::ConstBool(x < y)),
        PrimOp::Le => Some(Op::ConstBool(x <= y)),
        PrimOp::Gt => Some(Op::ConstBool(x > y)),
        PrimOp::Ge => Some(Op::ConstBool(x >= y)),
        _ => None,
    }
}

fn fold_bool(op: PrimOp, x: bool, y: bool) -> (r: Option<Op>)
    ensures
        r == bool_fold(op, x, y),
{
    match op {
        PrimOp::And => Some(Op::ConstBool(x && y)),
        PrimOp::Or => Some(Op::ConstBool(x || y)),
        PrimOp::Eq => Some(Op::ConstBool(x == y)),
        PrimOp::Ne => Some(Op::ConstBool(x != y)),
        _ => None,
    }
}

fn fold_prim(
    op: PrimOp,
    args: &Vec<Value>,
    ints: &HashMap<Value, i64>,
    bools: &HashMap<Value, bool>,
) -> (r: Option<Op>)
    ensures
        r == prim_fold(op, args@, ints@, bools@),
{
    if op == PrimOp::Neg && args.len() == 1 {
        match ints.get(&args[0]) {
            Some(n) => {
                if *n == i64::MIN {
                    None
                } else {
                    Some(Op::ConstI64(-*n))
                }
            },
            None => None,
        }
    } else if op == PrimOp::Not && args.len() == 1 {
        match bools.get(&args[0]) {
            Some(x) => Some(Op::ConstBool(!*x)),
            None => None,
        }
    } else if args.len() == 2 {
        let (a, b) = (args[0], args[1]);
        if let (Some(x), Some(y)) = (ints.get(&a), ints.get(&b)) {
            return fold_int(op, *x, *y);
        }
        if let (Some(x), Some(y)) = (bools.get(&a), bools.get(&b)) {
            return fold_bool(op, *x, *y);
        }
        None
    } else {
        None
    }
}

/// Collect the integer and boolean constants a function defines.
fn constants(f: &Func) -> (r: (HashMap<Value, i64>, HashMap<Value, bool>))
    ensures
        r.0@ == int_consts(f.blocks@),
        r.1@ == bool_consts(f.blocks@),
{
    let mut ints: HashMap<Value, i64> = HashMap::new();
    let mut bools: HashMap<Value, bool> = HashMap::new();
    let mut i: usize = 0;
    while i < f.blocks.len()
        invariant
            i <= f.blocks.len(),
            ints@ == int_consts(f.blocks@.take(i as int)),
            bools@ == bool_consts(f.blocks@.take(i as int)),
        decreases f.blocks.len() - i,
    {
        let b = &f.blocks[i];
        let ghost before_i = ints@;
        let ghost before_b = bools@;
        let mut k: usize = 0;
        while k < b.insts.len()
            invariant
                k <= b.insts.len(),
                ints@ == int_defs(b.insts@.take(k as int), before_i),
                bools@ == bool_defs(b.insts@.take(k as int), before_b),
            decreases b.insts.len() - k,
        {
            let inst = &b.insts[k];
            assert(b.insts@.take(k + 1).drop_last() == b.insts@.take(k as int));
            match (inst.result, &inst.op) {
                (Some(v), Op::ConstI64(n)) => {
                    ints.insert(v, *n);
                },
                (Some(v), Op::ConstBool(x)) => {
                    bools.insert(v, *x);
                },
                _ => {},
            }
            k += 1;
        }
        assert(b.insts@.take(b.insts.len() as int) == b.insts@);
        assert(f.blocks@.take(i + 1).drop_last() == f.blocks@.take(i as int));
        i += 1;
    }
    assert(f.blocks@.take(f.blocks.len() as int) == f.blocks@);
    (ints, bools)
}

/// Blocks agree on everything but their instructions.
pub open spec fn same_shape(a: Seq<Block>, b: Seq<Block>) -> bool {
    &&& a.len() == b.len()
    &&& forall|i: int|
        0 <= i < a.len() ==> {
            &&& (#[trigger] a[i]).id == b[i].id
            &&& a[i].params == b[i].params
            &&& a[i].term == b[i].term
        }
}

/// Some instruction of the blocks folds.
pub open spec fn any_folds(blocks: Seq<Block>) -> bool {
    exists|i: int, k: int|
        0 <= i < blocks.len() && 0 <= k < blocks[i].insts.len() && inst_fold(
            #[trigger] blocks[i].insts@[k],
            int_consts(blocks),
            bool_consts(blocks),
        ) is Some
}

/// Fold every primitive op whose operands are known constants into a constant. The
/// constants are read from the function as it stands before the pass. Overflow and
/// division by zero are left to the runtime, unfolded. Returns whether anything changed.
pub fn const_fold(f: &mut Func) -> (changed: bool)
    ensures
        final(f).name == old(f).name,
        final(f).reprs == old(f).reprs,
        final(f).ret == old(f).ret,
        final(f).entry == old(f).entry,
        same_shape(final(f).blocks@, old(f).blocks@),
        forall|i: int|
            0 <= i < old(f).blocks.len() ==> (#[trigger] final(f).blocks@[i]).insts@
                == old(f).blocks@[i].insts@.map_values(
                |inst: Inst| folded(inst, int_consts(old(f).blocks@), bool_consts(old(f).blocks@)),
            ),
        changed == any_folds(old(f).blocks@),
{
    let (ints, bools) = constants(f);
    let ghost im = ints@;
    let ghost bm = bools@;
    let ghost orig = f.blocks@;
    let mut old_blocks: Vec<Block> = Vec::new();
    std::mem::swap(&mut f.blocks, &mut old_blocks);
    assert(orig.len() == old_blocks.len());
    let mut changed = false;
    let mut i: usize = 0;
    while old_blocks.len() > 0
        invariant
            i + old_blocks.len() == orig.len(),
            orig.len() <= usize::MAX,
            old_blocks@ == orig.skip(i as int),
            f.name == old(f).name,
            f.reprs == old(f).reprs,
            f.ret == old(f).ret,
            f.entry == old(f).entry,
            f.blocks.len() == i,
            same_shape(f.blocks@, orig.take(i as int)),
            forall|a: int|
                0 <= a < i ==> (#[trigger] f.blocks@[a]).insts@ == orig[a].insts@.map_values(
                    |inst: Inst| folded(inst, im, bm),
                ),
            changed == exists|a: int, k: int|
                0 <= a < i && 0 <= k < orig[a].insts.len() && inst_fold(
                    #[trigger] orig[a].insts@[k],
                    im,
                    bm,
                ) is Some,
            im == int_consts(orig),
            bm == bool_consts(orig),
            ints@ == im,
            bools@ == bm,
        decreases old_blocks.len(),
    {
        let b = old_blocks.remove(0);
        assert(b == orig[i as int]);
        assert(old_blocks@ =~= orig.skip(i + 1));
        let Block { id, params, insts, term } = b;
        let ghost orig_insts = insts@;
        let mut rest = insts;
        assert(orig_insts.len() == rest.len());
        let mut new_insts: Vec<Inst> = Vec::new();
        let mut k: usize = 0;
        let mut any = false;
        while rest.len() > 0
            invariant
                k + rest.len() == orig_insts.len(),
                orig_insts.len() <= usize::MAX,
                rest@ == orig_insts.skip(k as int),
                new_insts@ == orig_insts.take(k as int).map_values(|inst: Inst| folded(inst, im, bm)),
                any == exists|k2: int| 0 <= k2 < k && inst_fold(#[trigger] orig_insts[k2], im, bm) is Some,
                ints@ == im,
                bools@ == bm,
            decreases rest.len(),
        {
            let inst = rest.remove(0);
            assert(inst == orig_insts[k as int]);
            assert(rest@ =~= orig_insts.skip(k + 1));
            let Inst { result, op } = inst;
            let fold = match &op {
                Op::Prim(p, args) => fold_prim(*p, args, &ints, &bools),
                _ => None,
            };
            let new_op = match fold {
                Some(o) => {
                    any = true;
                    o
                },
                None => op,
            };
            new_insts.push(Inst { result, op: new_op });
            assert(orig_insts.take(k + 1) == orig_insts.take(k as int).push(orig_insts[k as int]));
            k += 1;
        }
        assert(orig_insts.take(k as int) == orig_insts);
        if any {
            changed = true;
        }
        f.blocks.push(Block { id, params, insts: new_insts, term });
        assert(orig.take(i + 1) == orig.take(i as int).push(orig[i as int]));
        i += 1;
    }
    assert(orig.take(i as int) == orig);
    changed
}

// ---- dead-code elimination ----

/// The values a run of instructions reads.
pub open spec fn insts_uses(insts: Seq<Inst>) -> Set<Value>
    decreases insts.len(),
{
    if insts.len() == 0 {
        Set::empty()
    } else {
        insts_uses(insts.drop_last()).union(op_operands(insts.last().op).to_set())
    }
}

/// The values a block reads, in its instructions or its terminator.
pub open spec fn block_uses(b: Block) -> Set<Value> {
    insts_uses(b.insts@).union(term_operands(b.term).to_set())
}

/// Every value read by an instruction operand, a terminator, or a branch's block args.
pub open spec fn used_set(blocks: Seq<Block>) -> Set<Value>
    decreases blocks.len(),
{
    if blocks.len() == 0 {
        Set::empty()
    } else {
        used_set(blocks.drop_last()).union(block_uses(blocks.last()))
    }
}

/// An instruction whose result nobody reads and whose op is pure.
pub open spec fn removable(inst: Inst, used: Set<Value>, pure: Map<Seq<char>, bool>, pure_natives: Seq<String>) -> bool {
    &&& inst.result matches Some(v) && !used.contains(v)
    &&& !op_must_stay(inst.op, pure, pure_natives)
}

/// Add every element of `vs` to `set`.
fn insert_all(set: &mut HashSet<Value>, vs: &Vec<Value>)
    ensures
        final(set)@ == old(set)@.union(vs@.to_set()),
{
    let mut i: usize = 0;
    while i < vs.len()
        invariant
            i <= vs.len(),
            set@ == old(set)@.union(vs@.take(i as int).to_set()),
        decreases vs.len() - i,
    {
        set.insert(vs[i]);
        assert(vs@.take(i + 1).to_set() =~= vs@.take(i as int).to_set().insert(vs@[i as int])) by {
            assert(vs@.take(i + 1) == vs@.take(i as int).push(vs@[i as int]));
            vs@.take(i as int).lemma_push_to_set_commute(vs@[i as int]);
        }
        i += 1;
    }
    assert(vs@.take(vs.len() as int) == vs@);
    assert(set@ =~= old(set)@.union(vs@.to_set()));
}

/// Every value read by an instruction operand, a terminator, or a branch's block args.
fn used_values(f: &Func) -> (used: HashSet<Value>)
    ensures
        used@ == used_set(f.blocks@),
{
    let mut used: HashSet<Value> = HashSet::new();
    let mut i: usize = 0;
    while i < f.blocks.len()
        invariant
            i <= f.blocks.len(),
            used@ == used_set(f.blocks@.take(i as int)),
        decreases f.blocks.len() - i,
    {
        let b = &f.blocks[i];
        let ghost before = used@;
        let mut k: usize = 0;
        while k < b.insts.len()
            invariant
                k <= b.insts.len(),
                used@ == before.union(insts_uses(b.insts@.take(k as int))),
            decreases b.insts.len() - k,
        {
            let vs = op_operand_values(&b.insts[k].op);
            insert_all(&mut used, &vs);
            assert(b.insts@.take(k + 1).drop_last() == b.insts@.take(k as int));
            assert(used@ =~= before.union(insts_uses(b.insts@.take(k + 1))));
            k += 1;
        }
        assert(b.insts@.take(b.insts.len() as int) == b.insts@);
        let tv = term_operand_values(&b.term);
        insert_all(&mut used, &tv);
        assert(f.blocks@.take(i + 1).drop_last() == f.blocks@.take(i as int));
        assert(used@ =~= used_set(f.blocks@.take(i + 1)));
        i += 1;
    }
    assert(f.blocks@.take(f.blocks.len() as int) == f.blocks@);
    used
}

/// Some instruction of the blocks is removable.
pub open spec fn any_removable(blocks: Seq<Block>, pure: Map<Seq<char>, bool>, pure_natives: Seq<String>) -> bool {
    exists|i: int, k: int|
        0 <= i < blocks.len() && 0 <= k < blocks[i].insts.len() && removable(
            #[trigger] blocks[i].insts@[k],
            used_set(blocks),
            pure,
            pure_natives,
        )
}

/// Remove instructions whose result is unused and whose op is pure. Effectful
/// instructions stay even when their result is dead. Returns whether anything changed.
pub fn dead_code(f: &mut Func, pure: &Purity, pure_natives: &Vec<String>) -> (changed: bool)
    requires
        old(f).values_in_range(),
        pure.inv(),
    ensures
        final(f).name == old(f).name,
        final(f).reprs == old(f).reprs,
        final(f).ret == old(f).ret,
        final(f).entry == old(f).entry,
        same_shape(final(f).blocks@, old(f).blocks@),
        forall|i: int|
            0 <= i < old(f).blocks.len() ==> (#[trigger] final(f).blocks@[i]).insts@
                == old(f).blocks@[i].insts@.filter(
                |inst: Inst|
                    !removable(
                        inst,
                        used_set(old(f).blocks@),
                        pure.map(),
                        pure_natives@,
                    ),
            ),
        changed == any_removable(old(f).blocks@, pure.map(), pure_natives@),
{
    let used = used_values(f);
    let ghost orig = f.blocks@;
    let ghost keep = |inst: Inst|
        !removable(inst, used_set(orig), pure.map(), pure_natives@);
    let mut old_blocks: Vec<Block> = Vec::new();
    std::mem::swap(&mut f.blocks, &mut old_blocks);
    assert(orig.len() == old_blocks.len());
    let mut changed = false;
    let mut i: usize = 0;
    while old_blocks.len() > 0
        invariant
            i + old_blocks.len() == orig.len(),
            orig.len() <= usize::MAX,
            old_blocks@ == orig.skip(i as int),
            f.name == old(f).name,
            f.reprs == old(f).reprs,
            f.ret == old(f).ret,
            f.entry == old(f).entry,
            orig == old(f).blocks@,
            old(f).values_in_range(),
            pure.inv(),
            used@ == used_set(orig),
            keep == (|inst: Inst|
                !removable(inst, used_set(orig), pure.map(), pure_natives@)),
            f.blocks.len() == i,
            same_shape(f.blocks@, orig.take(i as int)),
            forall|a: int|
                0 <= a < i ==> (#[trigger] f.blocks@[a]).insts@ == orig[a].insts@.filter(keep),
            changed == exists|a: int, k: int|
                0 <= a < i && 0 <= k < orig[a].insts.len() && !keep(#[trigger] orig[a].insts@[k]),
        decreases old_blocks.len(),
    {
        let b = old_blocks.remove(0);
        assert(b == orig[i as int]);
        assert(old_blocks@ =~= orig.skip(i + 1));
        let Block { id, params, insts, term } = b;
        let ghost orig_insts = insts@;
        let mut rest = insts;
        assert(orig_insts.len() == rest.len());
        let mut kept: Vec<Inst> = Vec::new();
        let mut k: usize = 0;
        let mut any = false;
        while rest.len() > 0
            invariant
                k + rest.len() == orig_insts.len(),
                orig_insts.len() <= usize::MAX,
                rest@ == orig_insts.skip(k as int),
                orig_insts == orig[i as int].insts@,
                i < orig.len(),
                old(f).values_in_range(),
                orig == old(f).blocks@,
                f.reprs == old(f).reprs,
                pure.inv(),
                used@ == used_set(orig),
                keep == (|inst: Inst|
                    !removable(inst, used_set(orig), pure.map(), pure_natives@)),
                kept@ == orig_insts.take(k as int).filter(keep),
                any == exists|k2: int| 0 <= k2 < k && !keep(#[trigger] orig_insts[k2]),
            decreases rest.len(),
        {
            let inst = rest.remove(0);
            assert(inst == orig_insts[k as int]);
            assert(rest@ =~= orig_insts.skip(k + 1));
            assert(forall|j: int|
                0 <= j < op_operands(inst.op).len() ==> op_operands(inst.op)[j] < f.reprs.len());
            let dead = match inst.result {
                Some(v) => !used.contains(&v),
                None => false,
            };
            let removable = dead && !op_is_kept(&inst.op, pure, pure_natives);
            proof {
                reveal(Seq::filter);
                assert(orig_insts.take(k + 1).drop_last() == orig_insts.take(k as int));
                assert(removable == !keep(inst));
            }
            if removable {
                any = true;
            } else {
                kept.push(inst);
            }
            k += 1;
        }
        assert(orig_insts.take(k as int) == orig_insts);
        if any {
            changed = true;
        }
        f.blocks.push(Block { id, params, insts: kept, term });
        assert(orig.take(i + 1) == orig.take(i as int).push(orig[i as int]));
        i += 1;
    }
    assert(orig.take(i as int) == orig);
    changed
}

// ---- CFG cleanup ----

/// Control can pass from the block with id `a` straight to the block with id `b`.
pub open spec fn edge(blocks: Seq<Block>, a: BlockId, b: BlockId) -> bool {
    exists|i: int|
        0 <= i < blocks.len() && (#[trigger] blocks[i]).id == a && term_successors(
            blocks[i].term,
        ).contains(b)
}

/// `p` is a walk along edges.
pub open spec fn is_path(blocks: Seq<Block>, p: Seq<BlockId>) -> bool {
    &&& p.len() > 0
    &&& forall|i: int| 0 <= i < p.len() - 1 ==> #[trigger] edge(blocks, p[i], p[i + 1])
}

/// The ids of the blocks reachable from the entry.
pub open spec fn reachable_ids(f: Func) -> Set<BlockId> {
    Set::new(
        |id: BlockId|
            exists|p: Seq<BlockId>| #[trigger] is_path(f.blocks@, p) && p[0] == f.entry && p.last() == id,
    )
}

/// The successors of a terminator, in order.
pub fn successors(term: &Term) -> (r: Vec<BlockId>)
    ensures
        r@ == term_successors(*term),
{
    match term {
        Term::Jump(t) => vec![t.to],
        Term::Branch { then, els, .. } => vec![then.to, els.to],
        Term::Switch { arms, default, .. } => {
            let mut out: Vec<BlockId> = Vec::new();
            let mut i: usize = 0;
            while i < arms.len()
                invariant
                    i <= arms.len(),
                    out@ == arms@.take(i as int).map_values(|a: (u32, Target)| a.1.to),
                decreases arms.len() - i,
            {
                out.push(arms[i].1.to);
                assert(arms@.take(i + 1) == arms@.take(i as int).push(arms@[i as int]));
                i += 1;
            }
            assert(arms@.take(arms.len() as int) == arms@);
            out.push(default.to);
            out
        },
        Term::Ret(_) | Term::Throw(_) | Term::Unreachable => Vec::new(),
    }
}

/// The position of the block with id `id`.
pub(crate) fn block_index(f: &Func, id: BlockId) -> (i: usize)
    requires
        f.has_block(id),
    ensures
        i < f.blocks.len(),
        f.blocks@[i as int].id == id,
{
    let mut i: usize = 0;
    while i < f.blocks.len()
        invariant
            i <= f.blocks.len(),
            f.has_block(id),
            forall|j: int| 0 <= j < i ==> f.blocks@[j].id != id,
        decreases f.blocks.len() - i,
    {
        if f.blocks[i].id == id {
            return i;
        }
        i += 1;
    }
    proof {
        let j = choose|j: int| 0 <= j < f.block_ids().len() && f.block_ids()[j] == id;
        assert(f.blocks@[j].id == id);
    }
    0
}

/// A set that holds the start of a walk and is closed under edges holds all of it.
proof fn lemma_closed_holds_paths(blocks: Seq<Block>, s: Set<BlockId>, p: Seq<BlockId>, i: int)
    requires
        is_path(blocks, p),
        s.contains(p[0]),
        forall|x: BlockId, y: BlockId| s.contains(x) && #[trigger] edge(blocks, x, y) ==> s.contains(y),
        0 <= i < p.len(),
    ensures
        s.contains(p[i]),
    decreases i,
{
    if i > 0 {
        lemma_closed_holds_paths(blocks, s, p, i - 1);
        assert(edge(blocks, p[i - 1], p[(i - 1) + 1]));
    }
}

/// A walk extended by one edge.
proof fn lemma_path_step(blocks: Seq<Block>, p: Seq<BlockId>, to: BlockId)
    requires
        is_path(blocks, p),
        edge(blocks, p.last(), to),
    ensures
        is_path(blocks, p.push(to)),
        p.push(to)[0] == p[0],
        p.push(to).last() == to,
{
    let q = p.push(to);
    assert forall|i: int| 0 <= i < q.len() - 1 implies #[trigger] edge(blocks, q[i], q[i + 1]) by {
        if i < p.len() - 1 {
            assert(q[i] == p[i] && q[i + 1] == p[i + 1]);
            assert(edge(blocks, p[i], p[i + 1]));
        }
    }
}

/// Keep exactly the blocks whose id is reachable.
pub open spec fn keeps_reachable(f: Func) -> spec_fn(Block) -> bool {
    |b: Block| reachable_ids(f).contains(b.id)
}

/// Drop blocks unreachable from the entry. Returns whether anything changed.
pub fn drop_unreachable_blocks(f: &mut Func) -> (changed: bool)
    requires
        old(f).cfg_ok(),
    ensures
        final(f).name == old(f).name,
        final(f).reprs == old(f).reprs,
        final(f).ret == old(f).ret,
        final(f).entry == old(f).entry,
        final(f).blocks@ == old(f).blocks@.filter(keeps_reachable(*old(f))),
        changed == exists|i: int|
            0 <= i < old(f).blocks.len() && !reachable_ids(*old(f)).contains(
                (#[trigger] old(f).blocks@[i]).id,
            ),
{
    let ghost blocks = f.blocks@;
    let ghost bids = f.block_ids();
    let ghost ids = f.block_ids().to_set();
    let ghost r = reachable_ids(*f);
    let mut reachable: HashSet<BlockId> = HashSet::new();
    let mut stack: Vec<BlockId> = vec![f.entry];
    proof {
        assert(is_path(blocks, seq![f.entry]));
        f.block_ids().unique_seq_to_set();
    }
    loop
        invariant
            f.cfg_ok(),
            blocks == f.blocks@,
            ids == f.block_ids().to_set(),
            ids.len() == f.blocks.len(),
            r == reachable_ids(*f),
            reachable@.subset_of(ids),
            reachable@.subset_of(r),
            forall|j: int| 0 <= j < stack.len() ==> ids.contains(#[trigger] stack@[j]) && r.contains(stack@[j]),
            reachable@.contains(f.entry) || stack@.contains(f.entry),
            forall|x: BlockId, y: BlockId|
                reachable@.contains(x) && #[trigger] edge(blocks, x, y) ==> reachable@.contains(y)
                    || stack@.contains(y),
        ensures
            reachable@ == r,
        decreases ids.difference(reachable@).len(), stack.len(),
    {
        if stack.len() == 0 {
            proof {
                assert forall|id: BlockId| r.contains(id) implies reachable@.contains(id) by {
                    let p = choose|p: Seq<BlockId>| #[trigger] is_path(blocks, p) && p[0] == f.entry && p.last() == id;
                    lemma_closed_holds_paths(blocks, reachable@, p, p.len() - 1);
                }
                assert(reachable@ =~= r);
            }
            break;
        }
        let ghost old_stack = stack@;
        let id = stack.pop().unwrap();
        assert(old_stack == stack@.push(id));
        assert(old_stack[old_stack.len() - 1] == id);
        assert(ids.contains(id) && r.contains(id));
        proof {
            assert forall|y: BlockId| old_stack.contains(y) implies stack@.contains(y) || y == id by {
                let k = choose|k: int| 0 <= k < old_stack.len() && old_stack[k] == y;
                if k < stack@.len() {
                    assert(stack@[k] == y);
                }
            }
        }
        if reachable.contains(&id) {
            continue;
        }
        let ghost before = reachable@;
        reachable.insert(id);
        proof {
            ids.lemma_set_insert_diff_decreases(before, id);
        }
        let i = block_index(f, id);
        let succs = successors(&f.blocks[i].term);
        let ghost base_stack = stack@;
        let mut j: usize = 0;
        while j < succs.len()
            invariant
                j <= succs.len(),
                succs@ == term_successors(blocks[i as int].term),
                i < blocks.len(),
                blocks[i as int].id == id,
                f.cfg_ok(),
                blocks == f.blocks@,
                ids == f.block_ids().to_set(),
                r == reachable_ids(*f),
                r.contains(id),
                stack@ == base_stack + succs@.take(j as int),
                forall|k: int| 0 <= k < base_stack.len() ==> ids.contains(#[trigger] base_stack[k]) && r.contains(base_stack[k]),
            decreases succs.len() - j,
        {
            let s = succs[j];
            proof {
                assert(term_successors(f.blocks@[i as int].term)[j as int] == s);
                assert(f.has_block(s));
                assert(f.block_ids().contains(s));
                assert(edge(blocks, id, s));
                let p = choose|p: Seq<BlockId>| #[trigger] is_path(blocks, p) && p[0] == f.entry && p.last() == id;
                lemma_path_step(blocks, p, s);
            }
            stack.push(s);
            assert(succs@.take(j + 1) == succs@.take(j as int).push(s));
            j += 1;
        }
        proof {
            assert(succs@.take(succs.len() as int) == succs@);
            if base_stack.contains(f.entry) {
                let m = choose|m: int| 0 <= m < base_stack.len() && base_stack[m] == f.entry;
                assert(stack@[m] == f.entry);
            }
            assert forall|x: BlockId, y: BlockId|
                reachable@.contains(x) && #[trigger] edge(blocks, x, y) implies reachable@.contains(y)
                    || stack@.contains(y) by {
                if x == id {
                    let k = choose|k: int|
                        0 <= k < blocks.len() && (#[trigger] blocks[k]).id == x && term_successors(
                            blocks[k].term,
                        ).contains(y);
                    assert(f.block_ids()[k] == f.block_ids()[i as int]);
                    assert(k == i);
                    let m = choose|m: int| 0 <= m < succs@.len() && succs@[m] == y;
                    assert(stack@[base_stack.len() + m] == y);
                } else {
                    assert(before.contains(x));
                    if !before.contains(y) && y != id {
                        assert(old_stack.contains(y));
                        assert(base_stack.contains(y));
                        let m = choose|m: int| 0 <= m < base_stack.len() && base_stack[m] == y;
                        assert(stack@[m] == y);
                    }
                }
            }
            assert forall|k: int| 0 <= k < stack.len() implies ids.contains(#[trigger] stack@[k]) && r.contains(stack@[k]) by {
                if k >= base_stack.len() {
                    let m = k - base_stack.len();
                    assert(stack@[k] == succs@[m]);
                    assert(f.has_block(succs@[m]));
                    let p = choose|p: Seq<BlockId>| #[trigger] is_path(blocks, p) && p[0] == f.entry && p.last() == id;
                    assert(edge(blocks, id, succs@[m]));
                    lemma_path_step(blocks, p, succs@[m]);
                }
            }
        }
    }
    let ghost pred = keeps_reachable(*f);
    if reachable.len() == f.blocks.len() {
        proof {
            vstd::set_lib::lemma_subset_equality(r, ids);
            assert forall|k: int| 0 <= k < blocks.len() implies pred(blocks[k]) by {
                assert(f.block_ids()[k] == blocks[k].id);
            }
            lemma_filter_all(blocks, pred);
        }
        return false;
    }
    let mut old_blocks: Vec<Block> = Vec::new();
    std::mem::swap(&mut f.blocks, &mut old_blocks);
    let mut k: usize = 0;
    let mut any = false;
    while old_blocks.len() > 0
        invariant
            k + old_blocks.len() == blocks.len(),
            blocks.len() <= usize::MAX,
            old_blocks@ == blocks.skip(k as int),
            reachable@ == r,
            bids == blocks.map_values(|b: Block| b.id),
            ids == bids.to_set(),
            pred == keeps_reachable(*old(f)),
            blocks == old(f).blocks@,
            r == reachable_ids(*old(f)),
            f.name == old(f).name,
            f.reprs == old(f).reprs,
            f.ret == old(f).ret,
            f.entry == old(f).entry,
            f.blocks@ == blocks.take(k as int).filter(pred),
        decreases old_blocks.len(),
    {
        let b = old_blocks.remove(0);
        assert(b == blocks[k as int]);
        assert(old_blocks@ =~= blocks.skip(k + 1));
        proof {
            reveal(Seq::filter);
            assert(blocks.take(k + 1).drop_last() == blocks.take(k as int));
        }
        if reachable.contains(&b.id) {
            f.blocks.push(b);
        }
        k += 1;
    }
    assert(blocks.take(k as int) == blocks);
    proof {
        // Some block is unreachable, else the two counts would agree.
        if forall|i: int| 0 <= i < blocks.len() ==> r.contains(#[trigger] blocks[i].id) {
            assert(ids.subset_of(r)) by {
                assert forall|id: BlockId| ids.contains(id) implies r.contains(id) by {
                    let i = choose|i: int| 0 <= i < bids.len() && bids[i] == id;
                    assert(blocks[i].id == id);
                }
            }
            assert(r =~= ids);
        }
    }
    true
}

/// Filtering by a predicate that holds everywhere keeps everything.
pub(crate) proof fn lemma_filter_all<A>(s: Seq<A>, pred: spec_fn(A) -> bool)
    requires
        forall|k: int| 0 <= k < s.len() ==> pred(s[k]),
    ensures
        s.filter(pred) == s,
    decreases s.len(),
{
    reveal(Seq::filter);
    if s.len() > 0 {
        lemma_filter_all(s.drop_last(), pred);
        assert(s.drop_last().push(s.last()) =~= s);
    }
}

// ---- what each pass leaves alone ----

proof fn lemma_int_defs_defined(insts: Seq<Inst>, m: Map<Value, i64>, v: Value)
    requires
        int_defs(insts, m).contains_key(v),
    ensures
        (m.contains_key(v) && int_defs(insts, m)[v] == m[v]) || exists|k: int|
            0 <= k < insts.len() && #[trigger] insts[k] == (Inst { result: Some(v), op: Op::ConstI64(int_defs(insts, m)[v]) }),
    decreases insts.len(),
{
    if insts.len() > 0 {
        let d = insts.drop_last();
        let last = insts.last();
        if last.result == Some(v) && last.op is ConstI64 {
            assert(insts[insts.len() - 1] == last);
        } else {
            lemma_int_defs_defined(d, m, v);
            if exists|k: int|
                0 <= k < d.len() && #[trigger] d[k] == (Inst { result: Some(v), op: Op::ConstI64(int_defs(d, m)[v]) }) {
                let k = choose|k: int|
                    0 <= k < d.len() && #[trigger] d[k] == (Inst { result: Some(v), op: Op::ConstI64(int_defs(d, m)[v]) });
                assert(insts[k] == d[k]);
            }
        }
    }
}

proof fn lemma_bool_defs_defined(insts: Seq<Inst>, m: Map<Value, bool>, v: Value)
    requires
        bool_defs(insts, m).contains_key(v),
    ensures
        (m.contains_key(v) && bool_defs(insts, m)[v] == m[v]) || exists|k: int|
            0 <= k < insts.len() && #[trigger] insts[k] == (Inst { result: Some(v), op: Op::ConstBool(bool_defs(insts, m)[v]) }),
    decreases insts.len(),
{
    if insts.len() > 0 {
        let d = insts.drop_last();
        let last = insts.last();
        if last.result == Some(v) && last.op is ConstBool {
            assert(insts[insts.len() - 1] == last);
        } else {
            lemma_bool_defs_defined(d, m, v);
            if exists|k: int|
                0 <= k < d.len() && #[trigger] d[k] == (Inst { result: Some(v), op: Op::ConstBool(bool_defs(d, m)[v]) }) {
                let k = choose|k: int|
                    0 <= k < d.len() && #[trigger] d[k] == (Inst { result: Some(v), op: Op::ConstBool(bool_defs(d, m)[v]) });
                assert(insts[k] == d[k]);
            }
        }
    }
}

/// The constants folding works from are ones the function defines: a value known to be the
/// integer `n` (or the boolean `x`) is the result of an instruction of the blocks that is
/// the constant `n` (or `x`).
pub proof fn lemma_constants_are_defined(blocks: Seq<Block>, v: Value)
    ensures
        int_consts(blocks).contains_key(v) ==> exists|i: int, k: int|
            0 <= i < blocks.len() && 0 <= k < blocks[i].insts.len() && #[trigger] blocks[i].insts@[k] == (Inst {
                result: Some(v),
                op: Op::ConstI64(int_consts(blocks)[v]),
            }),
        bool_consts(blocks).contains_key(v) ==> exists|i: int, k: int|
            0 <= i < blocks.len() && 0 <= k < blocks[i].insts.len() && #[trigger] blocks[i].insts@[k] == (Inst {
                result: Some(v),
                op: Op::ConstBool(bool_consts(blocks)[v]),
            }),
    decreases blocks.len(),
{
    if blocks.len() > 0 {
        let d = blocks.drop_last();
        let last = blocks.last();
        lemma_constants_are_defined(d, v);
        let li = blocks.len() - 1;
        assert(blocks[li] == last);
        if int_consts(blocks).contains_key(v) {
            lemma_int_defs_defined(last.insts@, int_consts(d), v);
            if exists|k: int|
                0 <= k < last.insts@.len() && #[trigger] last.insts@[k] == (Inst {
                    result: Some(v),
                    op: Op::ConstI64(int_defs(last.insts@, int_consts(d))[v]),
                }) {
                let k = choose|k: int|
                    0 <= k < last.insts@.len() && #[trigger] last.insts@[k] == (Inst {
                        result: Some(v),
                        op: Op::ConstI64(int_defs(last.insts@, int_consts(d))[v]),
                    });
                assert(blocks[li].insts@[k] == last.insts@[k]);
            } else {
                let (i, k) = choose|i: int, k: int|
                    0 <= i < d.len() && 0 <= k < d[i].insts.len() && #[trigger] d[i].insts@[k] == (Inst {
                        result: Some(v),
                        op: Op::ConstI64(int_consts(d)[v]),
                    });
                assert(blocks[i] == d[i]);
            }
        }
        if bool_consts(blocks).contains_key(v) {
            lemma_bool_defs_defined(last.insts@, bool_consts(d), v);
            if exists|k: int|
                0 <= k < last.insts@.len() && #[trigger] last.insts@[k] == (Inst {
                    result: Some(v),
                    op: Op::ConstBool(bool_defs(last.insts@, bool_consts(d))[v]),
                }) {
                let k = choose|k: int|
                    0 <= k < last.insts@.len() && #[trigger] last.insts@[k] == (Inst {
                        result: Some(v),
                        op: Op::ConstBool(bool_defs(last.insts@, bool_consts(d))[v]),
                    });
                assert(blocks[li].insts@[k] == last.insts@[k]);
            } else {
                let (i, k) = choose|i: int, k: int|
                    0 <= i < d.len() && 0 <= k < d[i].insts.len() && #[trigger] d[i].insts@[k] == (Inst {
                        result: Some(v),
                        op: Op::ConstBool(bool_consts(d)[v]),
                    });
                assert(blocks[i] == d[i]);
            }
        }
    }
}

/// `q` and `r` are the quotient and remainder of `x` by `y`, truncated towards zero: `x` is
/// `q * y + r`, `r` is smaller than `y` in size, and `r` is zero or has the sign of `x`.
pub open spec fn truncated_div(x: int, y: int, q: int, r: int) -> bool {
    &&& y != 0
    &&& x == q * y + r
    &&& (if y > 0 {
        -y < r < y
    } else {
        y < r < -y
    })
    &&& (r == 0 || (r > 0) == (x > 0))
}

/// The quotient the machine's division gives, truncated towards zero.
spec fn trunc_quot(x: int, d: int) -> int {
    if x == 0 {
        0
    } else if x > 0 && d > 0 {
        x / d
    } else if x < 0 && d < 0 {
        ((x * -1) / (d * -1))
    } else if x < 0 {
        ((x * -1) / d) * -1
    } else {
        (x / (d * -1)) * -1
    }
}

/// The remainder the machine's division leaves, with the sign of the dividend.
spec fn trunc_rem(x: int, d: int) -> int {
    if x == 0 {
        0
    } else if x > 0 && d > 0 {
        x % d
    } else if x < 0 && d < 0 {
        ((x * -1) % (d * -1)) * -1
    } else if x < 0 {
        ((x * -1) % d) * -1
    } else {
        x % (d * -1)
    }
}

proof fn lemma_truncated(x: int, d: int)
    requires
        d != 0,
    ensures
        truncated_div(x, d, trunc_quot(x, d), trunc_rem(x, d)),
{
    if x == 0 {
    } else if x > 0 && d > 0 {
        vstd::arithmetic::div_mod::lemma_fundamental_div_mod(x, d);
        vstd::arithmetic::div_mod::lemma_mod_bound(x, d);
        let q = x / d;
        assert(q * d == d * q) by (nonlinear_arith);
    } else if x < 0 && d < 0 {
        let (a, e) = (x * -1, d * -1);
        vstd::arithmetic::div_mod::lemma_fundamental_div_mod(a, e);
        vstd::arithmetic::div_mod::lemma_mod_bound(a, e);
        let (q, m) = (a / e, a % e);
        assert(q * d == -(e * q)) by (nonlinear_arith)
            requires
                e == d * -1,
        ;
    } else if x < 0 {
        let a = x * -1;
        vstd::arithmetic::div_mod::lemma_fundamental_div_mod(a, d);
        vstd::arithmetic::div_mod::lemma_mod_bound(a, d);
        let (q, m) = (a / d, a % d);
        assert((q * -1) * d == -(d * q)) by (nonlinear_arith);
    } else {
        let e = d * -1;
        vstd::arithmetic::div_mod::lemma_fundamental_div_mod(x, e);
        vstd::arithmetic::div_mod::lemma_mod_bound(x, e);
        let (q, m) = (x / e, x % e);
        assert((q * -1) * d == e * q) by (nonlinear_arith)
            requires
                e == d * -1,
        ;
    }
}

/// Folding an op on two known integers computes what the op means, with the operands in
/// their order: a sum, difference or product; a quotient or remainder truncated towards
/// zero; the bitwise `and`, `or` or `xor`; or the truth of a comparison. It folds a sum,
/// difference or product exactly when the result fits in an `i64`, and never folds where
/// the machine operation would trap (the trap is left for the runtime).
pub proof fn lemma_integer_folds_compute(op: PrimOp, args: Seq<Value>, ints: Map<Value, i64>, bools: Map<Value, bool>)
    requires
        args.len() == 2,
        ints.contains_key(args[0]),
        ints.contains_key(args[1]),
    ensures
        ({
            let (x, y) = (ints[args[0]], ints[args[1]]);
            &&& prim_fold(op, args, ints, bools) matches Some(Op::ConstI64(z)) ==> match op {
                PrimOp::Add => z == x + y,
                PrimOp::Sub => z == x - y,
                PrimOp::Mul => z == x * y,
                PrimOp::Div => exists|r: int| #[trigger] truncated_div(x as int, y as int, z as int, r),
                PrimOp::Rem => exists|q: int| #[trigger] truncated_div(x as int, y as int, q, z as int),
                PrimOp::Band => z == x & y,
                PrimOp::Bor => z == x | y,
                PrimOp::Bxor => z == x ^ y,
                _ => false,
            }
            &&& prim_fold(op, args, ints, bools) matches Some(Op::ConstBool(c)) ==> match op {
                PrimOp::Eq => c == (x == y),
                PrimOp::Ne => c == (x != y),
                PrimOp::Lt => c == (x < y),
                PrimOp::Le => c == (x <= y),
                PrimOp::Gt => c == (x > y),
                PrimOp::Ge => c == (x >= y),
                _ => false,
            }
            &&& (op == PrimOp::Add || op == PrimOp::Sub || op == PrimOp::Mul) ==> (prim_fold(op, args, ints, bools) is Some
                <==> !super::effects::i64_traps(op, x, y))
            &&& super::effects::i64_traps(op, x, y) ==> prim_fold(op, args, ints, bools) is None
        }),
{
    let (x, y) = (ints[args[0]], ints[args[1]]);
    if op == PrimOp::Div && y != 0 {
        lemma_truncated(x as int, y as int);
        if let Some(Op::ConstI64(z)) = prim_fold(op, args, ints, bools) {
            assert(z as int == trunc_quot(x as int, y as int));
            assert(truncated_div(x as int, y as int, z as int, trunc_rem(x as int, y as int)));
        }
        if x == i64::MIN && y == -1 {
            assert((9223372036854775808int) / 1 == 9223372036854775808int);
        }
    }
    if op == PrimOp::Rem && y != 0 {
        lemma_truncated(x as int, y as int);
        if let Some(Op::ConstI64(z)) = prim_fold(op, args, ints, bools) {
            assert(z as int == trunc_rem(x as int, y as int));
            assert(truncated_div(x as int, y as int, trunc_quot(x as int, y as int), z as int));
        }
    }
}

/// Folding a negation of a known integer gives its negative, and happens exactly when the
/// negative fits in an `i64` (the negation of `i64::MIN` traps, and is left unfolded).
/// Folding a `not` of a known boolean gives its opposite.
pub proof fn lemma_unary_folds_compute(op: PrimOp, a: Value, ints: Map<Value, i64>, bools: Map<Value, bool>)
    ensures
        op == PrimOp::Neg && ints.contains_key(a) ==> (prim_fold(op, seq![a], ints, bools) matches Some(
            Op::ConstI64(z),
        ) ==> z == -ints[a]) && (prim_fold(op, seq![a], ints, bools) is None <==> ints[a] == i64::MIN),
        op == PrimOp::Not && bools.contains_key(a) ==> prim_fold(op, seq![a], ints, bools) == Some(
            Op::ConstBool(!bools[a]),
        ),
{
}

/// Folding an op on two known booleans (that are not both known integers) computes what
/// it means: conjunction, disjunction, equality or difference.
pub proof fn lemma_boolean_folds_compute(op: PrimOp, args: Seq<Value>, ints: Map<Value, i64>, bools: Map<Value, bool>)
    requires
        args.len() == 2,
        !(ints.contains_key(args[0]) && ints.contains_key(args[1])),
        bools.contains_key(args[0]),
        bools.contains_key(args[1]),
    ensures
        ({
            let (x, y) = (bools[args[0]], bools[args[1]]);
            prim_fold(op, args, ints, bools) == match op {
                PrimOp::And => Some(Op::ConstBool(x && y)),
                PrimOp::Or => Some(Op::ConstBool(x || y)),
                PrimOp::Eq => Some(Op::ConstBool(x == y)),
                PrimOp::Ne => Some(Op::ConstBool(x != y)),
                _ => None,
            }
        }),
{
}

/// Constant folding rewrites arithmetic only: every other instruction comes out as it went
/// in, and a folded one keeps its result.
pub proof fn lemma_fold_touches_only_arithmetic(a: Func, b: Func, i: int, k: int)
    requires
        fold_rel(a, b),
        0 <= i < a.blocks.len(),
        0 <= k < a.blocks@[i].insts.len(),
    ensures
        b.blocks@[i].insts.len() == a.blocks@[i].insts.len(),
        b.blocks@[i].insts@[k].result == a.blocks@[i].insts@[k].result,
        !(a.blocks@[i].insts@[k].op is Prim) ==> b.blocks@[i].insts@[k] == a.blocks@[i].insts@[k],
{
}

/// Constant folding replaces a primitive op by exactly what it folds to over the constants
/// the function defines (`lemma_integer_folds_compute` and its kin say what that means), or
/// leaves it as it was.
pub proof fn lemma_fold_pass_folds(a: Func, b: Func, i: int, k: int)
    requires
        fold_rel(a, b),
        0 <= i < a.blocks.len(),
        0 <= k < a.blocks@[i].insts.len(),
    ensures
        a.blocks@[i].insts@[k].op matches Op::Prim(op, args) ==> (b.blocks@[i].insts@[k] == a.blocks@[i].insts@[k]
            || prim_fold(op, args@, int_consts(a.blocks@), bool_consts(a.blocks@)) == Some(
            b.blocks@[i].insts@[k].op,
        )),
{
}

/// Dead-code elimination keeps every instruction it must: a call that is not proven pure,
/// a closure call and an index stay, in their block, whether or not their result is read.
pub proof fn lemma_dce_keeps_what_must_stay(
    a: Func,
    b: Func,
    pure: Map<Seq<char>, bool>,
    pure_natives: Seq<String>,
    i: int,
    inst: Inst,
)
    requires
        dce_rel(a, b, pure, pure_natives),
        0 <= i < a.blocks.len(),
        a.blocks@[i].insts@.contains(inst),
        op_must_stay(inst.op, pure, pure_natives),
    ensures
        b.blocks@[i].insts@.contains(inst),
{
    let keep = |x: Inst| !removable(x, used_set(a.blocks@), pure, pure_natives);
    assert(b.blocks@[i].insts@ == a.blocks@[i].insts@.filter(keep));
    a.blocks@[i].insts@.filter_lemma(keep);
    let k = choose|k: int| 0 <= k < a.blocks@[i].insts.len() && a.blocks@[i].insts@[k] == inst;
    assert(keep(a.blocks@[i].insts@[k]));
}

/// Dead-code elimination keeps, in its block and whether or not its result is read, every
/// list or map lookup (it traps on a missing element: deleting it deletes the check),
/// every call through a closure, every call of a function that the verdicts do not claim
/// pure, and every call of a native whose declaration did not claim `@pure`.
pub proof fn lemma_dce_keeps_lookups_and_calls(
    a: Func,
    b: Func,
    pure: Map<Seq<char>, bool>,
    pure_natives: Seq<String>,
    i: int,
    k: int,
)
    requires
        dce_rel(a, b, pure, pure_natives),
        0 <= i < a.blocks.len(),
        0 <= k < a.blocks@[i].insts.len(),
        ({
            let op = a.blocks@[i].insts@[k].op;
            ||| op is Index
            ||| op is CallClosure
            ||| op matches Op::Call { func, .. } && !(pure.contains_key(func@) && pure[func@])
            ||| op matches Op::Native { symbol, .. } && !pure_natives.map_values(|s: String| s@).contains(symbol@)
        }),
    ensures
        b.blocks@[i].insts@.contains(a.blocks@[i].insts@[k]),
{
    let inst = a.blocks@[i].insts@[k];
    assert(super::effects::names_of(pure_natives) == pure_natives.map_values(|s: String| s@));
    assert(op_must_stay(inst.op, pure, pure_natives));
    lemma_dce_keeps_what_must_stay(a, b, pure, pure_natives, i, inst);
}

/// Dropping unreachable blocks keeps every block control can reach, unchanged.
pub proof fn lemma_drop_keeps_reachable(a: Func, b: Func, blk: Block)
    requires
        drop_rel(a, b),
        a.blocks@.contains(blk),
        reachable_ids(a).contains(blk.id),
    ensures
        b.blocks@.contains(blk),
{
    a.blocks@.filter_lemma(keeps_reachable(a));
    let k = choose|k: int| 0 <= k < a.blocks.len() && a.blocks@[k] == blk;
    assert(keeps_reachable(a)(a.blocks@[k]));
}

// ---- the pipeline ----

/// The parts of a function no pass touches.
pub open spec fn same_header(a: Func, b: Func) -> bool {
    &&& a.name == b.name
    &&& a.reprs == b.reprs
    &&& a.ret == b.ret
    &&& a.entry == b.entry
}

/// `b` is `a` after constant folding.
pub open spec fn fold_rel(a: Func, b: Func) -> bool {
    &&& same_header(a, b)
    &&& same_shape(b.blocks@, a.blocks@)
    &&& forall|i: int|
        0 <= i < a.blocks.len() ==> (#[trigger] b.blocks@[i]).insts@ == a.blocks@[i].insts@.map_values(
            |inst: Inst| folded(inst, int_consts(a.blocks@), bool_consts(a.blocks@)),
        )
}

/// `b` is `a` after dead-code elimination under the verdicts `pure`.
pub open spec fn dce_rel(a: Func, b: Func, pure: Map<Seq<char>, bool>, pure_natives: Seq<String>) -> bool {
    &&& same_header(a, b)
    &&& same_shape(b.blocks@, a.blocks@)
    &&& forall|i: int|
        0 <= i < a.blocks.len() ==> (#[trigger] b.blocks@[i]).insts@ == a.blocks@[i].insts@.filter(
            |inst: Inst| !removable(inst, used_set(a.blocks@), pure, pure_natives),
        )
}

/// `b` is `a` with its unreachable blocks dropped.
pub open spec fn drop_rel(a: Func, b: Func) -> bool {
    &&& same_header(a, b)
    &&& b.blocks@ == a.blocks@.filter(keeps_reachable(a))
}

/// Step `k` of a run of the pipeline: fold, then eliminate, then clean up, repeatedly.
pub open spec fn pass_step(
    chain: Seq<Func>,
    k: int,
    pure: Map<Seq<char>, bool>,
    pure_natives: Seq<String>,
) -> bool {
    if k % 3 == 0 {
        fold_rel(chain[k], chain[k + 1])
    } else if k % 3 == 1 {
        dce_rel(chain[k], chain[k + 1], pure, pure_natives)
    } else {
        drop_rel(chain[k], chain[k + 1])
    }
}

/// `b` is what running the three passes over `a` in rounds gives, stopping after the first
/// round in which no pass changed anything.
pub open spec fn optimized(a: Func, b: Func, pure: Map<Seq<char>, bool>, pure_natives: Seq<String>) -> bool {
    exists|chain: Seq<Func>|
        {
            &&& chain.len() >= 4
            &&& chain.len() % 3 == 1
            &&& chain[0] == a
            &&& chain.last() == b
            &&& forall|k: int| 0 <= k < chain.len() - 1 ==> #[trigger] pass_step(chain, k, pure, pure_natives)
            &&& !any_folds(chain[chain.len() - 4].blocks@)
            &&& !any_removable(
                chain[chain.len() - 3].blocks@,
                pure,
                pure_natives,
            )
            &&& forall|i: int|
                0 <= i < chain[chain.len() - 2].blocks.len() ==> reachable_ids(chain[chain.len() - 2]).contains(
                    (#[trigger] chain[chain.len() - 2].blocks@[i]).id,
                )
        }
}

/// What `analyze` computes: the greatest consistent purity assignment.
pub open spec fn purity_of(program: Program, p: Map<Seq<char>, bool>) -> bool {
    &&& p.dom() == super::effects::func_names(program.funcs@)
    &&& forall|i: int|
        0 <= i < program.funcs.len() && super::effects::pure_in(p, (#[trigger] program.funcs@[i]).name@)
            ==> !super::effects::func_effectful(program.funcs@[i], p, program.pure_natives@)
    &&& forall|q: Map<Seq<char>, bool>|
        super::effects::post_fixpoint(program.funcs@, program.pure_natives@, q)
            ==> super::effects::claims_le(q, p)
}

// -- sizes, for termination --

pub open spec fn inst_weight(inst: Inst) -> nat {
    if inst.op is Prim {
        2
    } else {
        1
    }
}

pub open spec fn insts_weight(s: Seq<Inst>) -> nat
    decreases s.len(),
{
    if s.len() == 0 {
        0
    } else {
        insts_weight(s.drop_last()) + inst_weight(s.last())
    }
}

pub open spec fn blocks_weight(s: Seq<Block>) -> nat
    decreases s.len(),
{
    if s.len() == 0 {
        0
    } else {
        blocks_weight(s.drop_last()) + 1 + insts_weight(s.last().insts@)
    }
}

proof fn lemma_insts_weight_fold(s: Seq<Inst>, ints: Map<Value, i64>, bools: Map<Value, bool>)
    ensures
        insts_weight(s.map_values(|inst: Inst| folded(inst, ints, bools))) <= insts_weight(s),
        (exists|k: int| 0 <= k < s.len() && inst_fold(#[trigger] s[k], ints, bools) is Some)
            ==> insts_weight(s.map_values(|inst: Inst| folded(inst, ints, bools))) < insts_weight(s),
    decreases s.len(),
{
    if s.len() > 0 {
        let m = s.map_values(|inst: Inst| folded(inst, ints, bools));
        lemma_insts_weight_fold(s.drop_last(), ints, bools);
        assert(m.drop_last() =~= s.drop_last().map_values(|inst: Inst| folded(inst, ints, bools)));
        assert(m.last() == folded(s.last(), ints, bools));
        if exists|k: int| 0 <= k < s.len() && inst_fold(#[trigger] s[k], ints, bools) is Some {
            let k = choose|k: int| 0 <= k < s.len() && inst_fold(#[trigger] s[k], ints, bools) is Some;
            if k < s.len() - 1 {
                assert(s.drop_last()[k] == s[k]);
            }
        }
    }
}

proof fn lemma_insts_weight_filter(s: Seq<Inst>, p: spec_fn(Inst) -> bool)
    ensures
        insts_weight(s.filter(p)) <= insts_weight(s),
        (exists|k: int| 0 <= k < s.len() && !p(#[trigger] s[k])) ==> insts_weight(s.filter(p))
            < insts_weight(s),
    decreases s.len(),
{
    reveal(Seq::filter);
    if s.len() > 0 {
        lemma_insts_weight_filter(s.drop_last(), p);
        let f = s.drop_last().filter(p);
        if p(s.last()) {
            assert(s.filter(p) == f.push(s.last()));
            assert(f.push(s.last()).drop_last() == f);
        }
        if exists|k: int| 0 <= k < s.len() && !p(#[trigger] s[k]) {
            let k = choose|k: int| 0 <= k < s.len() && !p(#[trigger] s[k]);
            if k < s.len() - 1 {
                assert(s.drop_last()[k] == s[k]);
            }
        }
    }
}

proof fn lemma_blocks_weight_pointwise(a: Seq<Block>, b: Seq<Block>)
    requires
        a.len() == b.len(),
        forall|i: int| 0 <= i < a.len() ==> insts_weight((#[trigger] b[i]).insts@) <= insts_weight(a[i].insts@),
    ensures
        blocks_weight(b) <= blocks_weight(a),
        (exists|i: int| 0 <= i < a.len() && insts_weight((#[trigger] b[i]).insts@) < insts_weight(a[i].insts@))
            ==> blocks_weight(b) < blocks_weight(a),
    decreases a.len(),
{
    if a.len() > 0 {
        assert forall|i: int| 0 <= i < a.drop_last().len() implies insts_weight(
            (#[trigger] b.drop_last()[i]).insts@,
        ) <= insts_weight(a.drop_last()[i].insts@) by {
            assert(b.drop_last()[i] == b[i]);
        }
        lemma_blocks_weight_pointwise(a.drop_last(), b.drop_last());
        if exists|i: int| 0 <= i < a.len() && insts_weight((#[trigger] b[i]).insts@) < insts_weight(a[i].insts@) {
            let i = choose|i: int| 0 <= i < a.len() && insts_weight((#[trigger] b[i]).insts@) < insts_weight(a[i].insts@);
            if i < a.len() - 1 {
                assert(b.drop_last()[i] == b[i]);
            }
        }
    }
}

proof fn lemma_blocks_weight_filter(s: Seq<Block>, p: spec_fn(Block) -> bool)
    ensures
        blocks_weight(s.filter(p)) <= blocks_weight(s),
        (exists|k: int| 0 <= k < s.len() && !p(#[trigger] s[k])) ==> blocks_weight(s.filter(p))
            < blocks_weight(s),
    decreases s.len(),
{
    reveal(Seq::filter);
    if s.len() > 0 {
        lemma_blocks_weight_filter(s.drop_last(), p);
        let f = s.drop_last().filter(p);
        if p(s.last()) {
            assert(s.filter(p) == f.push(s.last()));
            assert(f.push(s.last()).drop_last() == f);
        }
        if exists|k: int| 0 <= k < s.len() && !p(#[trigger] s[k]) {
            let k = choose|k: int| 0 <= k < s.len() && !p(#[trigger] s[k]);
            if k < s.len() - 1 {
                assert(s.drop_last()[k] == s[k]);
            }
        }
    }
}

// -- shape, kept by every pass --

/// Every element of a filtered sequence comes from the sequence and passes the filter.
proof fn lemma_filter_from<A>(s: Seq<A>, p: spec_fn(A) -> bool, x: A)
    requires
        s.filter(p).contains(x),
    ensures
        s.contains(x),
        p(x),
    decreases s.len(),
{
    reveal(Seq::filter);
    if s.len() > 0 {
        let f = s.drop_last().filter(p);
        if p(s.last()) && x == s.last() {
            assert(s[s.len() - 1] == x);
        } else {
            if p(s.last()) {
                let k = choose|k: int| 0 <= k < s.filter(p).len() && s.filter(p)[k] == x;
                assert(s.filter(p) == f.push(s.last()));
                if k < f.len() {
                    assert(f[k] == x);
                }
            }
            lemma_filter_from(s.drop_last(), p, x);
            let k = choose|k: int| 0 <= k < s.drop_last().len() && s.drop_last()[k] == x;
            assert(s[k] == x);
        }
    }
}

/// Filtering blocks keeps their ids distinct.
proof fn lemma_filter_ids_distinct(s: Seq<Block>, p: spec_fn(Block) -> bool)
    requires
        s.map_values(|b: Block| b.id).no_duplicates(),
    ensures
        s.filter(p).map_values(|b: Block| b.id).no_duplicates(),
    decreases s.len(),
{
    reveal(Seq::filter);
    if s.len() > 0 {
        let d = s.drop_last();
        assert(d.map_values(|b: Block| b.id) =~= s.map_values(|b: Block| b.id).drop_last());
        lemma_filter_ids_distinct(d, p);
        let f = d.filter(p);
        if p(s.last()) {
            let g = f.push(s.last());
            assert(s.filter(p) == g);
            let ids = g.map_values(|b: Block| b.id);
            assert forall|a: int, c: int| 0 <= a < ids.len() && 0 <= c < ids.len() && a != c
                implies ids[a] != ids[c] by {
                if a < f.len() && c < f.len() {
                    assert(ids[a] == f.map_values(|b: Block| b.id)[a]);
                    assert(ids[c] == f.map_values(|b: Block| b.id)[c]);
                } else {
                    let other = if a < f.len() { a } else { c };
                    assert(f.contains(f[other]));
                    lemma_filter_from(d, p, f[other]);
                    let j = choose|j: int| 0 <= j < d.len() && d[j] == f[other];
                    assert(s.map_values(|b: Block| b.id)[j] == d[j].id);
                    assert(s.map_values(|b: Block| b.id)[s.len() - 1] == s.last().id);
                }
            }
        }
    }
}

proof fn lemma_fold_keeps_wf(a: Func, b: Func)
    requires
        a.wf(),
        fold_rel(a, b),
    ensures
        b.wf(),
{
    let ints = int_consts(a.blocks@);
    let bools = bool_consts(a.blocks@);
    assert(b.block_ids() =~= a.block_ids());
    assert forall|i: int| 0 <= i < b.blocks.len() implies {
        let bb = #[trigger] b.blocks@[i];
        &&& forall|k: int|
            0 <= k < bb.insts.len() ==> {
                let inst = #[trigger] bb.insts@[k];
                &&& forall|j: int|
                    0 <= j < op_operands(inst.op).len() ==> op_operands(inst.op)[j] < b.reprs.len()
                &&& (inst.result matches Some(v) ==> v < b.reprs.len())
            }
        &&& forall|j: int|
            0 <= j < term_operands(bb.term).len() ==> term_operands(bb.term)[j] < b.reprs.len()
        &&& forall|j: int| 0 <= j < bb.params.len() ==> bb.params@[j] < b.reprs.len()
    } by {
        let ab = a.blocks@[i];
        assert forall|k: int| 0 <= k < b.blocks@[i].insts.len() implies {
            let inst = #[trigger] b.blocks@[i].insts@[k];
            &&& forall|j: int|
                0 <= j < op_operands(inst.op).len() ==> op_operands(inst.op)[j] < b.reprs.len()
            &&& (inst.result matches Some(v) ==> v < b.reprs.len())
        } by {
            assert(b.blocks@[i].insts@[k] == folded(ab.insts@[k], ints, bools));
            let ai = ab.insts@[k];
            assert(ai == a.blocks@[i].insts@[k]);
        }
    }
    assert forall|i: int, j: int|
        0 <= i < b.blocks.len() && 0 <= j < term_successors(b.blocks@[i].term).len()
            implies b.has_block(#[trigger] term_successors(b.blocks@[i].term)[j]) by {
        assert(a.has_block(term_successors(a.blocks@[i].term)[j]));
    }
}

proof fn lemma_dce_keeps_wf(a: Func, b: Func, pure: Map<Seq<char>, bool>, pure_natives: Seq<String>)
    requires
        a.wf(),
        dce_rel(a, b, pure, pure_natives),
    ensures
        b.wf(),
{
    let keep = |inst: Inst| !removable(inst, used_set(a.blocks@), pure, pure_natives);
    assert(b.block_ids() =~= a.block_ids());
    assert forall|i: int| 0 <= i < b.blocks.len() implies {
        let bb = #[trigger] b.blocks@[i];
        &&& forall|k: int|
            0 <= k < bb.insts.len() ==> {
                let inst = #[trigger] bb.insts@[k];
                &&& forall|j: int|
                    0 <= j < op_operands(inst.op).len() ==> op_operands(inst.op)[j] < b.reprs.len()
                &&& (inst.result matches Some(v) ==> v < b.reprs.len())
            }
        &&& forall|j: int|
            0 <= j < term_operands(bb.term).len() ==> term_operands(bb.term)[j] < b.reprs.len()
        &&& forall|j: int| 0 <= j < bb.params.len() ==> bb.params@[j] < b.reprs.len()
    } by {
        let ab = a.blocks@[i];
        assert forall|k: int| 0 <= k < b.blocks@[i].insts.len() implies {
            let inst = #[trigger] b.blocks@[i].insts@[k];
            &&& forall|j: int|
                0 <= j < op_operands(inst.op).len() ==> op_operands(inst.op)[j] < b.reprs.len()
            &&& (inst.result matches Some(v) ==> v < b.reprs.len())
        } by {
            let inst = b.blocks@[i].insts@[k];
            assert(ab.insts@.filter(keep).contains(inst));
            lemma_filter_from(ab.insts@, keep, inst);
            let m = choose|m: int| 0 <= m < ab.insts@.len() && ab.insts@[m] == inst;
            assert(a.blocks@[i].insts@[m] == inst);
        }
    }
    assert forall|i: int, j: int|
        0 <= i < b.blocks.len() && 0 <= j < term_successors(b.blocks@[i].term).len()
            implies b.has_block(#[trigger] term_successors(b.blocks@[i].term)[j]) by {
        assert(a.has_block(term_successors(a.blocks@[i].term)[j]));
    }
}

proof fn lemma_drop_keeps_wf(a: Func, b: Func)
    requires
        a.wf(),
        drop_rel(a, b),
    ensures
        b.wf(),
{
    let p = keeps_reachable(a);
    let blocks = a.blocks@;
    broadcast use Seq::lemma_filter_contains;
    lemma_filter_ids_distinct(blocks, p);
    assert(b.block_ids() == blocks.filter(p).map_values(|bl: Block| bl.id));
    assert forall|i: int| 0 <= i < b.blocks.len() implies {
        let bb = #[trigger] b.blocks@[i];
        &&& forall|k: int|
            0 <= k < bb.insts.len() ==> {
                let inst = #[trigger] bb.insts@[k];
                &&& forall|j: int|
                    0 <= j < op_operands(inst.op).len() ==> op_operands(inst.op)[j] < b.reprs.len()
                &&& (inst.result matches Some(v) ==> v < b.reprs.len())
            }
        &&& forall|j: int|
            0 <= j < term_operands(bb.term).len() ==> term_operands(bb.term)[j] < b.reprs.len()
        &&& forall|j: int| 0 <= j < bb.params.len() ==> bb.params@[j] < b.reprs.len()
    } by {
        let bb = b.blocks@[i];
        assert(blocks.filter(p).contains(bb));
        lemma_filter_from(blocks, p, bb);
        let m = choose|m: int| 0 <= m < blocks.len() && blocks[m] == bb;
        assert(a.blocks@[m] == bb);
    }
    // The entry is reachable, so it stays.
    let e = choose|e: int| 0 <= e < a.block_ids().len() && a.block_ids()[e] == a.entry;
    assert(is_path(blocks, seq![a.entry]));
    assert(p(blocks[e]));
    assert(blocks.filter(p).contains(blocks[e]));
    let fe = choose|fe: int| 0 <= fe < blocks.filter(p).len() && blocks.filter(p)[fe] == blocks[e];
    assert(b.block_ids()[fe] == a.entry);
    // A kept block's successors are reachable, so they stay too.
    assert forall|i: int, j: int|
        0 <= i < b.blocks.len() && 0 <= j < term_successors(b.blocks@[i].term).len()
            implies b.has_block(#[trigger] term_successors(b.blocks@[i].term)[j]) by {
        let bb = b.blocks@[i];
        let s = term_successors(bb.term)[j];
        assert(blocks.filter(p).contains(bb));
        lemma_filter_from(blocks, p, bb);
        let m = choose|m: int| 0 <= m < blocks.len() && blocks[m] == bb;
        assert(a.has_block(term_successors(a.blocks@[m].term)[j]));
        let t = choose|t: int| 0 <= t < a.block_ids().len() && a.block_ids()[t] == s;
        let path = choose|path: Seq<BlockId>| #[trigger] is_path(blocks, path) && path[0] == a.entry && path.last() == bb.id;
        assert(term_successors(blocks[m].term).contains(s));
        assert(edge(blocks, bb.id, s));
        lemma_path_step(blocks, path, s);
        assert(p(blocks[t]));
        assert(blocks.filter(p).contains(blocks[t]));
        let ft = choose|ft: int| 0 <= ft < blocks.filter(p).len() && blocks.filter(p)[ft] == blocks[t];
        assert(b.block_ids()[ft] == s);
    }
}

/// Optimise every function in the program to a fixpoint of constant folding, dead-code
/// elimination and CFG cleanup, with the purity verdicts of the program as it stood before.
pub fn optimize(program: &mut Program)
    requires
        old(program).wf(),
    ensures
        final(program).wf(),
        final(program).pure_natives == old(program).pure_natives,
        final(program).funcs.len() == old(program).funcs.len(),
        exists|pm: Map<Seq<char>, bool>|
            {
                &&& purity_of(*old(program), pm)
                &&& forall|i: int|
                    0 <= i < old(program).funcs.len() ==> optimized(
                        old(program).funcs@[i],
                        #[trigger] final(program).funcs@[i],
                        pm,
                        old(program).pure_natives@,
                    )
            },
{
    let pure = analyze(program);
    let ghost pm = pure.map();
    let ghost orig = program.funcs@;
    let ghost natives = program.pure_natives@;
    let mut rest: Vec<Func> = Vec::new();
    std::mem::swap(&mut program.funcs, &mut rest);
    assert(rest@ == orig);
    assert(orig.len() == rest.len());
    assert(purity_of(*old(program), pm));
    let mut i: usize = 0;
    while rest.len() > 0
        invariant
            i + rest.len() == orig.len(),
            orig.len() <= usize::MAX,
            rest@ == orig.skip(i as int),
            forall|j: int| 0 <= j < orig.len() ==> (#[trigger] orig[j]).wf(),
            program.pure_natives == old(program).pure_natives,
            natives == program.pure_natives@,
            orig == old(program).funcs@,
            purity_of(*old(program), pm),
            pure.inv(),
            pure.map() == pm,
            program.funcs.len() == i,
            forall|j: int| 0 <= j < i ==> (#[trigger] program.funcs@[j]).wf(),
            forall|j: int| 0 <= j < i ==> optimized(orig[j], #[trigger] program.funcs@[j], pm, natives),
        decreases rest.len(),
    {
        let mut f = rest.remove(0);
        assert(f == orig[i as int]);
        assert(rest@ =~= orig.skip(i + 1));
        let ghost mut chain: Seq<Func> = seq![f];
        loop
            invariant
                f.wf(),
                i < orig.len(),
                chain.len() >= 1,
                chain.len() % 3 == 1,
                chain[0] == orig[i as int],
                chain.last() == f,
                forall|k: int| 0 <= k < chain.len() - 1 ==> #[trigger] pass_step(chain, k, pm, natives),
                pure.inv(),
                pure.map() == pm,
                natives == program.pure_natives@,
            ensures
                f.wf(),
                optimized(orig[i as int], f, pm, natives),
            decreases blocks_weight(f.blocks@),
        {
            let ghost f0 = f;
            let a = const_fold(&mut f);
            let ghost f1 = f;
            proof {
                lemma_fold_keeps_wf(f0, f1);
                assert forall|b: int| 0 <= b < f0.blocks.len() implies insts_weight(
                    (#[trigger] f1.blocks@[b]).insts@,
                ) <= insts_weight(f0.blocks@[b].insts@) by {
                    lemma_insts_weight_fold(f0.blocks@[b].insts@, int_consts(f0.blocks@), bool_consts(f0.blocks@));
                }
                if a {
                    let (b, k) = choose|b: int, k: int|
                        0 <= b < f0.blocks.len() && 0 <= k < f0.blocks@[b].insts.len() && inst_fold(
                            #[trigger] f0.blocks@[b].insts@[k],
                            int_consts(f0.blocks@),
                            bool_consts(f0.blocks@),
                        ) is Some;
                    lemma_insts_weight_fold(f0.blocks@[b].insts@, int_consts(f0.blocks@), bool_consts(f0.blocks@));
                    assert(insts_weight(f1.blocks@[b].insts@) < insts_weight(f0.blocks@[b].insts@));
                }
                lemma_blocks_weight_pointwise(f0.blocks@, f1.blocks@);
            }
            let b = dead_code(&mut f, &pure, &program.pure_natives);
            let ghost f2 = f;
            proof {
                lemma_dce_keeps_wf(f1, f2, pm, natives);
                let keep = |inst: Inst| !removable(inst, used_set(f1.blocks@), pm, natives);
                assert forall|x: int| 0 <= x < f1.blocks.len() implies insts_weight(
                    (#[trigger] f2.blocks@[x]).insts@,
                ) <= insts_weight(f1.blocks@[x].insts@) by {
                    lemma_insts_weight_filter(f1.blocks@[x].insts@, keep);
                }
                if b {
                    let (x, k) = choose|x: int, k: int|
                        0 <= x < f1.blocks.len() && 0 <= k < f1.blocks@[x].insts.len() && removable(
                            #[trigger] f1.blocks@[x].insts@[k],
                            used_set(f1.blocks@),
                            pm,
                            natives,
                        );
                    lemma_insts_weight_filter(f1.blocks@[x].insts@, keep);
                    assert(!keep(f1.blocks@[x].insts@[k]));
                    assert(insts_weight(f2.blocks@[x].insts@) < insts_weight(f1.blocks@[x].insts@));
                }
                lemma_blocks_weight_pointwise(f1.blocks@, f2.blocks@);
            }
            let c = drop_unreachable_blocks(&mut f);
            let ghost f3 = f;
            proof {
                lemma_drop_keeps_wf(f2, f3);
                lemma_blocks_weight_filter(f2.blocks@, keeps_reachable(f2));
                let old_chain = chain;
                chain = chain.push(f1).push(f2).push(f3);
                assert forall|k: int| 0 <= k < chain.len() - 1 implies #[trigger] pass_step(chain, k, pm, natives) by {
                    if k < old_chain.len() - 1 {
                        assert(pass_step(old_chain, k, pm, natives));
                        assert(chain[k] == old_chain[k] && chain[k + 1] == old_chain[k + 1]);
                    } else if k == old_chain.len() - 1 {
                        assert(chain[k] == f0 && chain[k + 1] == f1);
                    } else if k == old_chain.len() {
                        assert(chain[k] == f1 && chain[k + 1] == f2);
                    } else {
                        assert(chain[k] == f2 && chain[k + 1] == f3);
                    }
                }
            }
            if !(a || b || c) {
                proof {
                    assert(chain[chain.len() - 4] == f0);
                    assert(chain[chain.len() - 3] == f1);
                    assert(chain[chain.len() - 2] == f2);
                    assert forall|x: int| 0 <= x < f2.blocks.len() implies reachable_ids(f2).contains(
                        (#[trigger] f2.blocks@[x]).id,
                    ) by {}
                }
                break;
            }
        }
        program.funcs.push(f);
        i += 1;
    }
    assert(program.funcs@.len() == orig.len());
    assert(exists|pm2: Map<Seq<char>, bool>|
        {
            &&& purity_of(*old(program), pm2)
            &&& forall|j: int|
                0 <= j < old(program).funcs.len() ==> optimized(
                    old(program).funcs@[j],
                    #[trigger] program.funcs@[j],
                    pm2,
                    old(program).pure_natives@,
                )
        }) by {
        assert(purity_of(*old(program), pm));
    }
}

} // verus!
