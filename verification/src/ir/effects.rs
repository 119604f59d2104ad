//! Effect analysis, for the optimiser only. Pessimistic: a function is **effectful**
//! unless it can be cheaply proven pure. Being wrong in the safe direction only costs a
//! missed optimisation; the reverse would miscompile.
//!
//! Because the language is immutable there is no read/write-of-mutable-memory category —
//! the whole lattice is two states, `pure` vs `effectful`. A function is pure iff every
//! instruction is pure and every callee is pure; the callee condition is a monotonic
//! fixpoint over the call graph, and `analyze` computes its greatest solution.

use super::ssa::{op_operands, Func, Op, PrimOp, Program, Repr};
use vstd::prelude::*;

verus! {

/// The names in a list of strings.
pub open spec fn names_of(v: Seq<String>) -> Seq<Seq<char>> {
    v.map_values(|s: String| s@)
}

/// A native is effectful unless its declaration claimed `@pure`.
pub open spec fn native_effectful(symbol: Seq<char>, pure_natives: Seq<String>) -> bool {
    !names_of(pure_natives).contains(symbol)
}

/// Purity verdicts by function name. A name that is absent is effectful.
pub open spec fn pure_in(p: Map<Seq<char>, bool>, name: Seq<char>) -> bool {
    p.contains_key(name) && p[name]
}

/// Whether an op makes the function it stands in effectful, given verdicts for the
/// functions of the program (`pure`) and the value representations of that function.
pub open spec fn op_effectful(
    reprs: Seq<Repr>,
    op: Op,
    pure: Map<Seq<char>, bool>,
    pure_natives: Seq<String>,
) -> bool {
    match op {
        Op::Native { symbol, .. } => native_effectful(symbol@, pure_natives),
        Op::Call { func, .. } => !pure_in(pure, func@),
        Op::CallClosure { .. } => true,
        Op::Index { .. } => true,
        Op::Prim(p, vs) => traps_on_i64(p) && exists|j: int|
            0 <= j < vs.len() && reprs[vs@[j] as int] == Repr::I64,
        _ => false,
    }
}

/// Whether dead-code elimination must keep an instruction even when nothing reads its
/// result: a call out (a native not declared pure, a function not proven pure, a closure)
/// or an index, which traps on a missing element.
///
/// Arithmetic is not kept, even where it could trap: an unused `x * x` is removed, and so
/// is an unused `x / 0`, whose trap then never happens. This is narrower than
/// `op_effectful`, which counts `i64` arithmetic as an effect for the purity of the
/// function it stands in; dead-code elimination deliberately takes the optimiser's view
/// that an unread arithmetic result is dead.
pub open spec fn op_must_stay(op: Op, pure: Map<Seq<char>, bool>, pure_natives: Seq<String>) -> bool {
    match op {
        Op::Native { symbol, .. } => native_effectful(symbol@, pure_natives),
        Op::Call { func, .. } => !pure_in(pure, func@),
        Op::CallClosure { .. } => true,
        Op::Index { .. } => true,
        _ => false,
    }
}

/// The arithmetic that traps on `i64` (overflow, division by zero).
pub open spec fn traps_on_i64(p: PrimOp) -> bool {
    match p {
        PrimOp::Add | PrimOp::Sub | PrimOp::Mul | PrimOp::Div | PrimOp::Rem | PrimOp::Neg => true,
        _ => false,
    }
}

/// Some instruction of `f` is effectful.
pub open spec fn func_effectful(f: Func, pure: Map<Seq<char>, bool>, pure_natives: Seq<String>) -> bool {
    exists|i: int, k: int|
        0 <= i < f.blocks.len() && 0 <= k < f.blocks@[i].insts.len() && op_effectful(
            f.reprs@,
            #[trigger] f.blocks@[i].insts@[k].op,
            pure,
            pure_natives,
        )
}

/// The names of a program's functions.
pub open spec fn func_names(funcs: Seq<Func>) -> Set<Seq<char>> {
    Set::new(|n: Seq<char>| exists|i: int| 0 <= i < funcs.len() && (#[trigger] funcs[i]).name@ == n)
}

/// `q` is a consistent purity claim: it only claims functions of the program pure whose
/// every instruction is pure under `q` itself.
pub open spec fn post_fixpoint(
    funcs: Seq<Func>,
    pure_natives: Seq<String>,
    q: Map<Seq<char>, bool>,
) -> bool {
    &&& q.dom().subset_of(func_names(funcs))
    &&& forall|i: int|
        0 <= i < funcs.len() && pure_in(q, (#[trigger] funcs[i]).name@) ==> !func_effectful(
            funcs[i],
            q,
            pure_natives,
        )
}

/// Every function `q` claims pure, `p` claims pure too.
pub open spec fn claims_le(q: Map<Seq<char>, bool>, p: Map<Seq<char>, bool>) -> bool {
    forall|n: Seq<char>| pure_in(q, n) ==> #[trigger] pure_in(p, n)
}

/// Purity verdicts, keyed by function name.
pub struct Purity {
    names: Vec<String>,
    flags: Vec<bool>,
}

impl Purity {
    pub closed spec fn inv(&self) -> bool {
        &&& self.names.len() == self.flags.len()
        &&& names_of(self.names@).no_duplicates()
    }

    /// The verdicts as a map from function name to purity.
    pub closed spec fn map(&self) -> Map<Seq<char>, bool> {
        Map::new(
            |n: Seq<char>| names_of(self.names@).contains(n),
            |n: Seq<char>| self.flags@[names_of(self.names@).index_of(n)],
        )
    }

    /// The number of functions currently judged pure.
    closed spec fn count_pure(&self) -> nat {
        self.flags@.filter(|b: bool| b).len()
    }

    fn new() -> (p: Purity)
        ensures
            p.inv(),
            p.map() == Map::<Seq<char>, bool>::empty(),
    {
        let p = Purity { names: Vec::new(), flags: Vec::new() };
        assert(p.map() =~= Map::<Seq<char>, bool>::empty());
        p
    }

    /// The index of `name`, if it has a verdict.
    fn find(&self, name: &String) -> (r: Option<usize>)
        requires
            self.inv(),
        ensures
            match r {
                Some(i) => i < self.names.len() && self.names@[i as int]@ == name@
                    && names_of(self.names@).index_of(name@) == i,
                None => !names_of(self.names@).contains(name@),
            },
    {
        let mut i: usize = 0;
        while i < self.names.len()
            invariant
                self.inv(),
                i <= self.names.len(),
                forall|j: int| 0 <= j < i ==> self.names@[j]@ != name@,
            decreases self.names.len() - i,
        {
            if self.names[i] == *name {
                proof {
                    let ns = names_of(self.names@);
                    assert(ns[i as int] == name@);
                    ns.index_of_first(name@);
                    assert(ns.contains(name@));
                    let k = ns.index_of(name@);
                    assert(ns[k] == name@);
                    if k != i {
                        assert(ns[k] == ns[i as int]);
                    }
                }
                return Some(i);
            }
            i += 1;
        }
        proof {
            let ns = names_of(self.names@);
            if ns.contains(name@) {
                let k = choose|k: int| 0 <= k < ns.len() && ns[k] == name@;
                assert(self.names@[k]@ == name@);
            }
        }
        None
    }

    /// The verdict for `name`: `Some(true)` pure, `Some(false)` effectful, `None` unknown.
    pub fn get(&self, name: &str) -> (r: Option<bool>)
        requires
            self.inv(),
        ensures
            r == (if self.map().contains_key(name@) {
                Some(self.map()[name@])
            } else {
                None
            }),
    {
        let owned = name.to_owned();
        assert(self.map().contains_key(name@) == names_of(self.names@).contains(name@));
        match self.find(&owned) {
            Some(i) => {
                assert(names_of(self.names@)[i as int] == name@);
                Some(self.flags[i])
            },
            None => None,
        }
    }

    /// Whether `name` is judged pure; an absent name is not.
    fn is_pure(&self, name: &String) -> (b: bool)
        requires
            self.inv(),
        ensures
            b == pure_in(self.map(), name@),
    {
        assert(self.map().contains_key(name@) == names_of(self.names@).contains(name@));
        match self.find(name) {
            Some(i) => {
                assert(names_of(self.names@)[i as int] == name@);
                self.flags[i]
            },
            None => false,
        }
    }

    /// Record `name` as pure unless it already has a verdict.
    fn add_pure(&mut self, name: &String)
        requires
            old(self).inv(),
        ensures
            final(self).inv(),
            final(self).map() == (if old(self).map().contains_key(name@) {
                old(self).map()
            } else {
                old(self).map().insert(name@, true)
            }),
    {
        let found = self.find(name);
        if let Some(i) = found {
            assert(names_of(self.names@)[i as int] == name@);
        } else {
            let ghost old_names = names_of(self.names@);
            self.names.push(name.clone());
            self.flags.push(true);
            proof {
                let ns = names_of(self.names@);
                assert(ns =~= old_names.push(name@));
                assert forall|a: int, b: int| 0 <= a < ns.len() && 0 <= b < ns.len() && a != b
                    implies ns[a] != ns[b] by {
                    if a < old_names.len() && b < old_names.len() {
                        assert(old_names[a] != old_names[b]);
                    } else if a == old_names.len() {
                        assert(old_names.contains(ns[b]) || b == a);
                    } else {
                        assert(old_names.contains(ns[a]));
                    }
                }
                assert forall|n: Seq<char>| ns.contains(n) implies #[trigger] ns.index_of(n) == (
                if n == name@ {
                    old_names.len() as int
                } else {
                    old_names.index_of(n)
                }) by {
                    ns.index_of_first(n);
                    let k = ns.index_of(n);
                    if n == name@ {
                        assert(ns[old_names.len() as int] == n);
                    } else {
                        assert(old_names.contains(n)) by {
                            assert(old_names[k] == n);
                        }
                        old_names.index_of_first(n);
                        let k2 = old_names.index_of(n);
                        assert(ns[k2] == n);
                    }
                }
                let m = self.map();
                let om = old(self).map();
                assert(self.flags@ == old(self).flags@.push(true));
                assert forall|n: Seq<char>| #[trigger] m.contains_key(n) == om.insert(name@, true).contains_key(n) by {
                    if n != name@ && ns.contains(n) {
                        let k = choose|k: int| 0 <= k < ns.len() && ns[k] == n;
                        assert(old_names[k] == n);
                    }
                    if old_names.contains(n) {
                        let k = choose|k: int| 0 <= k < old_names.len() && old_names[k] == n;
                        assert(ns[k] == n);
                    }
                    if n == name@ {
                        assert(ns[old_names.len() as int] == n);
                    }
                }
                assert forall|n: Seq<char>| #[trigger] m.contains_key(n) implies m[n] == om.insert(name@, true)[n] by {
                    if n != name@ {
                        old_names.index_of_first(n);
                    }
                }
                assert(m =~= om.insert(name@, true));
            }
        }
    }

    /// Mark `name`, which has a verdict at index `i`, effectful.
    fn set_effectful(&mut self, i: usize)
        requires
            old(self).inv(),
            i < old(self).names.len(),
        ensures
            final(self).inv(),
            final(self).names@ == old(self).names@,
            final(self).flags@ == old(self).flags@.update(i as int, false),
            final(self).map() == old(self).map().insert(old(self).names@[i as int]@, false),
    {
        self.flags.set(i, false);
        proof {
            let ns = names_of(self.names@);
            let n = self.names@[i as int]@;
            assert(ns[i as int] == n);
            ns.index_of_first(n);
            assert forall|m: Seq<char>| ns.contains(m) implies (#[trigger] ns.index_of(m) == i) == (m
                == n) by {
                ns.index_of_first(m);
                if ns.index_of(m) == i {
                    assert(ns[i as int] == m);
                }
                if m == n {
                    let k = ns.index_of(m);
                    assert(ns[k] == ns[i as int]);
                }
            }
            assert(self.map() =~= old(self).map().insert(n, false));
        }
    }
}

/// Whether a native symbol has an observable effect. A native's body is opaque to the
/// compiler, so this reports what the declaration claimed: `pure_natives` holds the
/// symbols whose `@native` declaration also carried `@pure`, and everything outside it is
/// effectful. Silence means effectful, so a forgotten `@pure` costs an optimisation and
/// nothing else.
pub fn native_is_effectful(symbol: &str, pure_natives: &Vec<String>) -> (b: bool)
    ensures
        b == native_effectful(symbol@, pure_natives@),
{
    let s = symbol.to_owned();
    let mut i: usize = 0;
    while i < pure_natives.len()
        invariant
            i <= pure_natives.len(),
            s@ == symbol@,
            forall|j: int| 0 <= j < i ==> pure_natives@[j]@ != s@,
        decreases pure_natives.len() - i,
    {
        if pure_natives[i] == s {
            assert(names_of(pure_natives@)[i as int] == symbol@);
            return false;
        }
        i += 1;
    }
    proof {
        if names_of(pure_natives@).contains(symbol@) {
            let k = choose|k: int| 0 <= k < pure_natives.len() && names_of(pure_natives@)[k] == symbol@;
            assert(pure_natives@[k]@ == symbol@);
        }
    }
    true
}

/// Whether dead-code elimination must keep an instruction whose result is unused.
pub fn op_is_kept(op: &Op, pure: &Purity, pure_natives: &Vec<String>) -> (b: bool)
    requires
        pure.inv(),
    ensures
        b == op_must_stay(*op, pure.map(), pure_natives@),
{
    match op {
        Op::Native { symbol, .. } => native_is_effectful(symbol.as_str(), pure_natives),
        Op::Call { func, .. } => !pure.is_pure(func),
        Op::CallClosure { .. } => true,
        Op::Index { .. } => true,
        _ => false,
    }
}

/// Whether an op has an effect, the verdict the purity analysis works with. A direct call
/// is effectful iff its callee is not judged pure (an unknown callee counts as effectful);
/// an indirect call and an index (which can trap) always are; `i64` arithmetic traps on
/// overflow and division by zero, while the `f64` forms follow IEEE and stay pure.
/// Everything else is a pure function of its operands.
pub fn op_is_effectful(f: &Func, op: &Op, pure: &Purity, pure_natives: &Vec<String>) -> (b: bool)
    requires
        pure.inv(),
        forall|j: int| 0 <= j < op_operands(*op).len() ==> op_operands(*op)[j] < f.reprs.len(),
    ensures
        b == op_effectful(f.reprs@, *op, pure.map(), pure_natives@),
{
    match op {
        Op::Native { symbol, .. } => native_is_effectful(symbol.as_str(), pure_natives),
        Op::Call { func, .. } => !pure.is_pure(func),
        Op::CallClosure { .. } => true,
        Op::Index { .. } => true,
        Op::Prim(p, operands) => {
            let traps = match p {
                PrimOp::Add | PrimOp::Sub | PrimOp::Mul | PrimOp::Div | PrimOp::Rem
                | PrimOp::Neg => true,
                _ => false,
            };
            if !traps {
                return false;
            }
            assert(traps_on_i64(*p));
            assert(op_operands(*op) == operands@);
            let mut j: usize = 0;
            while j < operands.len()
                invariant
                    j <= operands.len(),
                    forall|x: int| 0 <= x < operands.len() ==> operands@[x] < f.reprs.len(),
                    forall|x: int| 0 <= x < j ==> f.reprs@[operands@[x] as int] != Repr::I64,
                    traps_on_i64(*p),
                    *op == Op::Prim(*p, *operands),
                decreases operands.len() - j,
            {
                if f.value_repr(operands[j]) == Repr::I64 {
                    assert(traps_on_i64(*p));
                    assert(0 <= j < operands.len() && f.reprs@[operands@[j as int] as int] == Repr::I64);
                    return true;
                }
                j += 1;
            }
            false
        },
        _ => false,
    }
}

/// Whether some instruction of `f` is effectful under the verdicts `pure`.
fn any_effectful(f: &Func, pure: &Purity, pure_natives: &Vec<String>) -> (b: bool)
    requires
        pure.inv(),
        f.values_in_range(),
    ensures
        b == func_effectful(*f, pure.map(), pure_natives@),
{
    let mut i: usize = 0;
    while i < f.blocks.len()
        invariant
            pure.inv(),
            f.values_in_range(),
            i <= f.blocks.len(),
            forall|a: int, k: int|
                0 <= a < i && 0 <= k < f.blocks@[a].insts.len() ==> !op_effectful(
                    f.reprs@,
                    #[trigger] f.blocks@[a].insts@[k].op,
                    pure.map(),
                    pure_natives@,
                ),
        decreases f.blocks.len() - i,
    {
        let b = &f.blocks[i];
        let mut k: usize = 0;
        while k < b.insts.len()
            invariant
                pure.inv(),
                f.values_in_range(),
                i < f.blocks.len(),
                *b == f.blocks@[i as int],
                k <= b.insts.len(),
                forall|a: int, k2: int|
                    0 <= a < i && 0 <= k2 < f.blocks@[a].insts.len() ==> !op_effectful(
                        f.reprs@,
                        #[trigger] f.blocks@[a].insts@[k2].op,
                        pure.map(),
                        pure_natives@,
                    ),
                forall|k2: int|
                    0 <= k2 < k ==> !op_effectful(
                        f.reprs@,
                        #[trigger] b.insts@[k2].op,
                        pure.map(),
                        pure_natives@,
                    ),
            decreases b.insts.len() - k,
        {
            let inst = &b.insts[k];
            assert(inst == f.blocks@[i as int].insts@[k as int]);
            if op_is_effectful(f, &inst.op, pure, pure_natives) {
                return true;
            }
            k += 1;
        }
        i += 1;
    }
    false
}

/// Fewer pure claims make every op at least as effectful.
proof fn lemma_effectful_antitone(
    f: Func,
    q: Map<Seq<char>, bool>,
    p: Map<Seq<char>, bool>,
    pure_natives: Seq<String>,
)
    requires
        claims_le(q, p),
        func_effectful(f, p, pure_natives),
    ensures
        func_effectful(f, q, pure_natives),
{
    let (i, k) = choose|i: int, k: int|
        0 <= i < f.blocks.len() && 0 <= k < f.blocks@[i].insts.len() && op_effectful(
            f.reprs@,
            #[trigger] f.blocks@[i].insts@[k].op,
            p,
            pure_natives,
        );
    let op = f.blocks@[i].insts@[k].op;
    if let Op::Call { func, .. } = op {
        if pure_in(q, func@) {
            assert(pure_in(p, func@));
        }
    }
    assert(op_effectful(f.reprs@, op, q, pure_natives));
}

/// Purity for every function in the program, keyed by name.
///
/// The result is the greatest consistent assignment: its domain is exactly the program's
/// function names, every function it judges pure has only pure instructions under it, and
/// any other consistent claim of purity (`post_fixpoint`) is contained in it. The fixpoint
/// starts optimistic (every function pure) and only ever removes purity, which is what lets
/// a pure recursive function stay pure instead of demoting itself on the first look at its
/// own call. A name that is absent is effectful, which is how a call to something outside
/// the program stays un-eliminable.
pub fn analyze(program: &Program) -> (p: Purity)
    requires
        program.wf(),
    ensures
        p.inv(),
        p.map().dom() == func_names(program.funcs@),
        forall|i: int|
            0 <= i < program.funcs.len() && pure_in(p.map(), (#[trigger] program.funcs@[i]).name@)
                ==> !func_effectful(program.funcs@[i], p.map(), program.pure_natives@),
        forall|q: Map<Seq<char>, bool>|
            post_fixpoint(program.funcs@, program.pure_natives@, q) ==> claims_le(q, p.map()),
{
    let funcs = &program.funcs;
    let ghost names = func_names(funcs@);
    let mut pure = Purity::new();
    let mut i: usize = 0;
    while i < funcs.len()
        invariant
            pure.inv(),
            i <= funcs.len(),
            pure.map().dom() == Set::new(
                |n: Seq<char>| exists|j: int| 0 <= j < i && (#[trigger] funcs@[j]).name@ == n,
            ),
            forall|n: Seq<char>| #[trigger] pure.map().contains_key(n) ==> pure.map()[n],
        decreases funcs.len() - i,
    {
        let ghost before = pure.map();
        pure.add_pure(&funcs[i].name);
        assert(pure.map().dom() =~= Set::new(
            |n: Seq<char>| exists|j: int| 0 <= j < i + 1 && (#[trigger] funcs@[j]).name@ == n,
        )) by {
            assert forall|n: Seq<char>| pure.map().contains_key(n) implies exists|j: int|
                0 <= j < i + 1 && (#[trigger] funcs@[j]).name@ == n by {
                if n != funcs@[i as int].name@ {
                    assert(before.contains_key(n));
                }
            }
            assert forall|n: Seq<char>|
                (exists|j: int| 0 <= j < i + 1 && (#[trigger] funcs@[j]).name@ == n) implies pure.map().contains_key(
                n,
            ) by {
                let j = choose|j: int| 0 <= j < i + 1 && (#[trigger] funcs@[j]).name@ == n;
                if j < i {
                    assert(before.contains_key(n));
                }
            }
        }
        i += 1;
    }
    assert(pure.map().dom() =~= names);
    proof {
        assert forall|q: Map<Seq<char>, bool>|
            post_fixpoint(funcs@, program.pure_natives@, q) implies claims_le(q, pure.map()) by {
            assert forall|n: Seq<char>| pure_in(q, n) implies #[trigger] pure_in(pure.map(), n) by {
                assert(q.dom().subset_of(names));
            }
        }
    }
    loop
        invariant
            program.wf(),
            funcs == &program.funcs,
            pure.inv(),
            pure.map().dom() == names,
            forall|q: Map<Seq<char>, bool>|
                post_fixpoint(funcs@, program.pure_natives@, q) ==> claims_le(q, pure.map()),
        ensures
            forall|j: int|
                0 <= j < funcs.len() && pure_in(pure.map(), (#[trigger] funcs@[j]).name@) ==> !func_effectful(
                    funcs@[j],
                    pure.map(),
                    program.pure_natives@,
                ),
        decreases pure.count_pure(),
    {
        let ghost start = pure.map();
        let ghost start_count = pure.count_pure();
        let mut changed = false;
        let mut i: usize = 0;
        while i < funcs.len()
            invariant
                program.wf(),
                funcs == &program.funcs,
                pure.inv(),
                pure.map().dom() == names,
                i <= funcs.len(),
                forall|q: Map<Seq<char>, bool>|
                    post_fixpoint(funcs@, program.pure_natives@, q) ==> claims_le(q, pure.map()),
                !changed ==> pure.map() == start && pure.count_pure() == start_count,
                changed ==> pure.count_pure() < start_count,
                pure.count_pure() <= start_count,
                !changed ==> forall|j: int|
                    0 <= j < i && pure_in(pure.map(), (#[trigger] funcs@[j]).name@) ==> !func_effectful(
                        funcs@[j],
                        pure.map(),
                        program.pure_natives@,
                    ),
            decreases funcs.len() - i,
        {
            let f = &funcs[i];
            assert(f.wf());
            if pure.is_pure(&f.name) {
                if any_effectful(f, &pure, &program.pure_natives) {
                    let idx = pure.find(&f.name).unwrap();
                    let ghost before = pure.map();
                    let ghost before_flags = pure.flags@;
                    pure.set_effectful(idx);
                    proof {
                        lemma_count_drop(before_flags, idx as int);
                        assert forall|q: Map<Seq<char>, bool>|
                            post_fixpoint(funcs@, program.pure_natives@, q) implies claims_le(
                            q,
                            pure.map(),
                        ) by {
                            assert(claims_le(q, before));
                            lemma_effectful_antitone(*f, q, before, program.pure_natives@);
                            assert(!pure_in(q, f.name@));
                            assert forall|n: Seq<char>| pure_in(q, n) implies #[trigger] pure_in(
                                pure.map(),
                                n,
                            ) by {
                                assert(pure_in(before, n));
                            }
                        }
                        assert(pure.map().dom() =~= names);
                    }
                    changed = true;
                }
            }
            i += 1;
        }
        if !changed {
            break;
        }
    }
    pure
}

/// Clearing a set flag lowers the number of set flags.
proof fn lemma_count_drop(flags: Seq<bool>, i: int)
    requires
        0 <= i < flags.len(),
        flags[i],
    ensures
        flags.update(i, false).filter(|b: bool| b).len() < flags.filter(|b: bool| b).len(),
    decreases flags.len(),
{
    let g = flags.update(i, false);
    if i == flags.len() - 1 {
        assert(g.drop_last() =~= flags.drop_last());
        reveal_with_fuel(Seq::filter, 2);
        assert(flags.filter(|b: bool| b) == flags.drop_last().filter(|b: bool| b).push(true));
        assert(g.filter(|b: bool| b) == g.drop_last().filter(|b: bool| b));
    } else {
        lemma_count_drop(flags.drop_last(), i);
        assert(g.drop_last() =~= flags.drop_last().update(i, false));
        reveal_with_fuel(Seq::filter, 2);
        assert(g.last() == flags.last());
        if flags.last() {
            assert(flags.filter(|b: bool| b) == flags.drop_last().filter(|b: bool| b).push(true));
            assert(g.filter(|b: bool| b) == g.drop_last().filter(|b: bool| b).push(true));
        } else {
            assert(flags.filter(|b: bool| b) == flags.drop_last().filter(|b: bool| b));
            assert(g.filter(|b: bool| b) == g.drop_last().filter(|b: bool| b));
        }
    }
}

/// Whether the machine's `i64` `p` traps on the operands `x` (and `y`, for a binary op):
/// a sum, difference or product outside the range of `i64`, a division or remainder by
/// zero or of `i64::MIN` by `-1`, or a negation of `i64::MIN`. Comparisons, bitwise
/// operations and the boolean operators never trap.
pub open spec fn i64_traps(p: PrimOp, x: i64, y: i64) -> bool {
    match p {
        PrimOp::Add => !(i64::MIN <= x + y <= i64::MAX),
        PrimOp::Sub => !(i64::MIN <= x - y <= i64::MAX),
        PrimOp::Mul => !(i64::MIN <= x * y <= i64::MAX),
        PrimOp::Div => y == 0 || (x == i64::MIN && y == -1),
        PrimOp::Rem => y == 0 || (x == i64::MIN && y == -1),
        PrimOp::Neg => x == i64::MIN,
        _ => false,
    }
}

/// An `i64` operation that traps on some operands has an effect: a trap ends the program,
/// which is as observable as an effect gets. `x` and `y` are operands it traps on.
pub proof fn lemma_trapping_arithmetic_is_effectful(
    reprs: Seq<Repr>,
    p: PrimOp,
    vs: Vec<u32>,
    j: int,
    x: i64,
    y: i64,
    pure: Map<Seq<char>, bool>,
    pure_natives: Seq<String>,
)
    requires
        0 <= j < vs.len(),
        reprs[vs@[j] as int] == Repr::I64,
        i64_traps(p, x, y),
    ensures
        op_effectful(reprs, Op::Prim(p, vs), pure, pure_natives),
{
    assert(traps_on_i64(p));
}

/// A function holding an `i64` operation that traps on some operands is never judged
/// pure, by any verdicts that claim only effect-free functions pure (as `analyze`'s do):
/// judging it pure would let a call to it, its result unread, be deleted along with the
/// trap. `x` and `y` are operands the operation traps on.
pub proof fn lemma_trapping_function_is_never_pure(
    program: Program,
    verdicts: Map<Seq<char>, bool>,
    i: int,
    b: int,
    k: int,
    j: int,
    x: i64,
    y: i64,
)
    requires
        forall|n: int|
            0 <= n < program.funcs.len() && pure_in(verdicts, (#[trigger] program.funcs@[n]).name@) ==> !func_effectful(
                program.funcs@[n],
                verdicts,
                program.pure_natives@,
            ),
        0 <= i < program.funcs.len(),
        0 <= b < program.funcs@[i].blocks.len(),
        0 <= k < program.funcs@[i].blocks@[b].insts.len(),
        program.funcs@[i].blocks@[b].insts@[k].op matches Op::Prim(p, vs) && 0 <= j < vs.len()
            && program.funcs@[i].reprs@[vs@[j] as int] == Repr::I64 && i64_traps(p, x, y),
    ensures
        !pure_in(verdicts, program.funcs@[i].name@),
{
    let f = program.funcs@[i];
    if let Op::Prim(p, vs) = f.blocks@[b].insts@[k].op {
        lemma_trapping_arithmetic_is_effectful(f.reprs@, p, vs, j, x, y, verdicts, program.pure_natives@);
        assert(func_effectful(f, verdicts, program.pure_natives@));
    }
}

/// A function that looks a value up in a list or map (which traps on a missing element),
/// calls through a closure, calls a function the verdicts do not claim pure, or calls a
/// native whose declaration did not claim `@pure`, is never judged pure by verdicts that
/// claim only effect-free functions pure (as `analyze`'s do).
pub proof fn lemma_effectful_calls_make_effectful(program: Program, verdicts: Map<Seq<char>, bool>, i: int, b: int, k: int)
    requires
        forall|n: int|
            0 <= n < program.funcs.len() && pure_in(verdicts, (#[trigger] program.funcs@[n]).name@) ==> !func_effectful(
                program.funcs@[n],
                verdicts,
                program.pure_natives@,
            ),
        0 <= i < program.funcs.len(),
        0 <= b < program.funcs@[i].blocks.len(),
        0 <= k < program.funcs@[i].blocks@[b].insts.len(),
        ({
            let op = program.funcs@[i].blocks@[b].insts@[k].op;
            ||| op is Index
            ||| op is CallClosure
            ||| op matches Op::Call { func, .. } && !(verdicts.contains_key(func@) && verdicts[func@])
            ||| op matches Op::Native { symbol, .. } && !program.pure_natives@.map_values(|s: String| s@).contains(
                symbol@,
            )
        }),
    ensures
        !pure_in(verdicts, program.funcs@[i].name@),
{
    let f = program.funcs@[i];
    assert(names_of(program.pure_natives@) == program.pure_natives@.map_values(|s: String| s@));
    assert(op_effectful(f.reprs@, f.blocks@[b].insts@[k].op, verdicts, program.pure_natives@));
    assert(func_effectful(f, verdicts, program.pure_natives@));
}

} // verus!
