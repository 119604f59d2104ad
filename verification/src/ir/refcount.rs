//! Reference-count insertion, driven by last use.
//!
//! Every counted (pointer-backed) value owns one reference when it is produced. A use is
//! either **consuming** (it takes ownership: a call argument, a field stored into an
//! aggregate, a returned or branched value) or **borrowing** (it only reads: a field
//! access, a tag test). The pass walks each block backwards over a cross-block liveness
//! result and inserts
//!
//! - a `Retain` before a consuming use of a value that is still live afterwards (it needs
//!   its own owned reference), and
//! - a `Release` after the last use of a value that is not moved out (a borrow with no
//!   later use, or a dead result).
//!
//! A projection (a field or element read, a cast, an unwrap) is a *view* into its operand:
//! it owns nothing of its own, so its base is kept alive for as long as the view is.

use super::opt::block_index;
use super::ssa::{arm_args, op_operands, term_operands, term_successors, Block, BlockId, Func, Inst, Op, Program, Target, Term, Value};
use super::vset::{lemma_missing_subset, members_below, missing, ValueSet};
use vstd::prelude::*;

verus! {

// ---- which values are counted, and how each op uses them ----

/// The counted values of a function: those whose representation is pointer-backed.
pub open spec fn counted_values(f: Func) -> Set<Value> {
    Set::new(|v: Value| v < f.reprs.len() && f.reprs@[v as int].counted())
}

/// The elements of `s` that `keep` holds, in order.
pub open spec fn only_in(s: Seq<Value>, keep: Set<Value>) -> Seq<Value>
    decreases s.len(),
{
    if s.len() == 0 {
        s
    } else {
        let r = only_in(s.drop_last(), keep);
        if keep.contains(s.last()) {
            r.push(s.last())
        } else {
            r
        }
    }
}

/// The operands an op takes ownership of.
pub open spec fn consuming_raw(op: Op) -> Seq<Value> {
    match op {
        Op::Call { args, .. } => args@,
        Op::Native { args, .. } => args@,
        Op::MakeTuple(args) => args@,
        Op::MakeList(args) => args@,
        Op::CallClosure { args, .. } => args@,
        Op::MakeClosure { captures, .. } => captures@,
        Op::MakeRecord { fields, .. } => fields@.map_values(|p: (String, Value)| p.1),
        _ => Seq::empty(),
    }
}

/// The operands an op only reads. Calling a closure reads the closure: it may be called
/// again.
pub open spec fn borrowing_raw(op: Op) -> Seq<Value> {
    match op {
        Op::CallClosure { callee, .. } => seq![callee],
        Op::Field { base, .. } => seq![base],
        Op::Elem { base, .. } => seq![base],
        Op::Index { base, index } => seq![base, index],
        Op::Cast(v) => seq![v],
        Op::IsNull(v) => seq![v],
        Op::IsErr(v) => seq![v],
        Op::UnwrapOk(v) => seq![v],
        Op::UnwrapErr(v) => seq![v],
        Op::IsVariant { value, .. } => seq![value],
        Op::Prim(_, vs) => vs@,
        _ => Seq::empty(),
    }
}

/// A terminator's consuming operands: a returned or thrown value, and every block
/// argument it hands on.
pub open spec fn term_consumed(t: Term) -> Seq<Value> {
    match t {
        Term::Ret(Some(v)) => seq![v],
        Term::Throw(v) => seq![v],
        Term::Jump(t) => t.args@,
        Term::Branch { then, els, .. } => then.args@ + els.args@,
        Term::Switch { arms, default, .. } => arm_args(arms@) + default.args@,
        _ => Seq::empty(),
    }
}

/// A terminator's outgoing edges: each target block with the arguments handed to it.
pub open spec fn edges(t: Term) -> Seq<(BlockId, Seq<Value>)> {
    match t {
        Term::Jump(t) => seq![(t.to, t.args@)],
        Term::Branch { then, els, .. } => seq![(then.to, then.args@), (els.to, els.args@)],
        Term::Switch { arms, default, .. } => arms@.map_values(
            |a: (u32, Target)| (a.1.to, a.1.args@),
        ).push((default.to, default.args@)),
        _ => Seq::empty(),
    }
}

/// The edges of a terminator lead where its successors do.
pub proof fn lemma_edges_successors(t: Term)
    ensures
        edges(t).len() == term_successors(t).len(),
        forall|k: int| 0 <= k < edges(t).len() ==> #[trigger] edges(t)[k].0 == term_successors(t)[k],
{
}

/// Every block argument of an arm is among the arms' arguments.
proof fn lemma_arm_args_contain(arms: Seq<(u32, Target)>, k: int, v: Value)
    requires
        0 <= k < arms.len(),
        arms[k].1.args@.contains(v),
    ensures
        arm_args(arms).contains(v),
    decreases arms.len(),
{
    let rest = arms.drop_last();
    if k < arms.len() - 1 {
        lemma_arm_args_contain(rest, k, v);
        let j = choose|j: int| 0 <= j < arm_args(rest).len() && arm_args(rest)[j] == v;
        assert((arm_args(rest) + arms.last().1.args@)[j] == v);
    } else {
        let j = choose|j: int| 0 <= j < arms.last().1.args@.len() && arms.last().1.args@[j] == v;
        assert((arm_args(rest) + arms.last().1.args@)[arm_args(rest).len() + j] == v);
    }
}

/// A block argument is a consuming operand of its terminator.
pub proof fn lemma_edge_args_consumed(t: Term, k: int, v: Value)
    requires
        0 <= k < edges(t).len(),
        edges(t)[k].1.contains(v),
    ensures
        term_consumed(t).contains(v),
{
    match t {
        Term::Branch { then, els, .. } => {
            let s = then.args@ + els.args@;
            if k == 0 {
                let j = choose|j: int| 0 <= j < then.args@.len() && then.args@[j] == v;
                assert(s[j] == v);
            } else {
                let j = choose|j: int| 0 <= j < els.args@.len() && els.args@[j] == v;
                assert(s[then.args@.len() + j] == v);
            }
        },
        Term::Switch { arms, default, .. } => {
            let s = arm_args(arms@) + default.args@;
            if k < arms.len() {
                lemma_arm_args_contain(arms@, k, v);
                let j = choose|j: int| 0 <= j < arm_args(arms@).len() && arm_args(arms@)[j] == v;
                assert(s[j] == v);
            } else {
                let j = choose|j: int| 0 <= j < default.args@.len() && default.args@[j] == v;
                assert(s[arm_args(arms@).len() + j] == v);
            }
        },
        _ => {},
    }
}

/// A consuming operand of a terminator is one of its operands.
pub proof fn lemma_term_consuming_operands(t: Term, v: Value)
    requires
        term_consumed(t).contains(v),
    ensures
        term_operands(t).contains(v),
{
    let c = term_consumed(t);
    let o = term_operands(t);
    let j = choose|j: int| 0 <= j < c.len() && c[j] == v;
    match t {
        Term::Branch { .. } | Term::Switch { .. } => {
            assert(o[j + 1] == v);
        },
        _ => {
            assert(o[j] == v);
        },
    }
}

// ---- executable helpers ----

/// The counted values of `f`, as a set over its value numbers.
fn counted_set(f: &Func) -> (p: ValueSet)
    requires
        f.reprs.len() <= u32::MAX,
    ensures
        p.wf(),
        p.universe() == f.reprs.len(),
        p@ == counted_values(*f),
{
    let n = f.reprs.len();
    let mut p = ValueSet::new(n);
    let mut v: usize = 0;
    while v < n
        invariant
            v <= n,
            n == f.reprs.len(),
            n <= u32::MAX,
            p.wf(),
            p.universe() == n,
            p@ == Set::new(|w: Value| w < v && f.reprs@[w as int].counted()),
        decreases n - v,
    {
        if f.reprs[v].is_counted() {
            p.insert(v as Value);
        }
        assert(p@ =~= Set::new(|w: Value| w < v + 1 && f.reprs@[w as int].counted()));
        v += 1;
    }
    assert(p@ =~= counted_values(*f));
    p
}

/// The elements of `vs` that `keep` holds, in order.
fn keep_counted(vs: &Vec<Value>, keep: &ValueSet) -> (r: Vec<Value>)
    ensures
        r@ == only_in(vs@, keep@),
{
    let mut r: Vec<Value> = Vec::new();
    let mut i: usize = 0;
    while i < vs.len()
        invariant
            i <= vs.len(),
            r@ == only_in(vs@.take(i as int), keep@),
        decreases vs.len() - i,
    {
        assert(vs@.take(i + 1).drop_last() == vs@.take(i as int));
        if keep.contains(vs[i]) {
            r.push(vs[i]);
        }
        i += 1;
    }
    assert(vs@.take(vs.len() as int) == vs@);
    r
}

/// An op's counted operands, split into consuming and borrowing uses.
fn operand_uses(op: &Op, ptr: &ValueSet) -> (r: (Vec<Value>, Vec<Value>))
    ensures
        r.0@ == only_in(consuming_raw(*op), ptr@),
        r.1@ == only_in(borrowing_raw(*op), ptr@),
{
    let (consuming, borrowing): (Vec<Value>, Vec<Value>) = match op {
        Op::Call { args, .. } | Op::Native { args, .. } | Op::MakeTuple(args) | Op::MakeList(args) => (
            args.clone(),
            Vec::new(),
        ),
        Op::CallClosure { callee, args } => (args.clone(), vec![*callee]),
        Op::MakeClosure { captures, .. } => (captures.clone(), Vec::new()),
        Op::MakeRecord { fields, .. } => {
            let mut out: Vec<Value> = Vec::new();
            let mut i: usize = 0;
            while i < fields.len()
                invariant
                    i <= fields.len(),
                    out@ == fields@.take(i as int).map_values(|p: (String, Value)| p.1),
                decreases fields.len() - i,
            {
                out.push(fields[i].1);
                assert(fields@.take(i + 1) == fields@.take(i as int).push(fields@[i as int]));
                i += 1;
            }
            assert(fields@.take(fields.len() as int) == fields@);
            (out, Vec::new())
        },
        Op::Field { base, .. } | Op::Elem { base, .. } => (Vec::new(), vec![*base]),
        Op::Index { base, index } => (Vec::new(), vec![*base, *index]),
        Op::Cast(v) | Op::IsNull(v) | Op::IsErr(v) | Op::UnwrapOk(v) | Op::UnwrapErr(v)
        | Op::IsVariant { value: v, .. } => (Vec::new(), vec![*v]),
        Op::Prim(_, vs) => (Vec::new(), vs.clone()),
        _ => (Vec::new(), Vec::new()),
    };
    assert(consuming@ == consuming_raw(*op));
    assert(borrowing@ == borrowing_raw(*op));
    (keep_counted(&consuming, ptr), keep_counted(&borrowing, ptr))
}

/// Append `src` to `out`.
fn append(out: &mut Vec<Value>, src: &Vec<Value>)
    ensures
        final(out)@ == old(out)@ + src@,
{
    let mut i: usize = 0;
    while i < src.len()
        invariant
            i <= src.len(),
            out@ == old(out)@ + src@.take(i as int),
        decreases src.len() - i,
    {
        out.push(src[i]);
        assert(src@.take(i + 1) == src@.take(i as int).push(src@[i as int]));
        i += 1;
    }
    assert(src@.take(src.len() as int) == src@);
}

/// A terminator's consuming operands (a returned, thrown, or branched value).
fn term_consuming(term: &Term) -> (vs: Vec<Value>)
    ensures
        vs@ == term_consumed(*term),
{
    let mut out: Vec<Value> = Vec::new();
    match term {
        Term::Ret(Some(v)) | Term::Throw(v) => {
            out.push(*v);
        },
        Term::Jump(t) => {
            append(&mut out, &t.args);
        },
        Term::Branch { then, els, .. } => {
            append(&mut out, &then.args);
            append(&mut out, &els.args);
        },
        Term::Switch { arms, default, .. } => {
            let mut i: usize = 0;
            while i < arms.len()
                invariant
                    i <= arms.len(),
                    out@ == arm_args(arms@.take(i as int)),
                decreases arms.len() - i,
            {
                append(&mut out, &arms[i].1.args);
                assert(arms@.take(i + 1).drop_last() == arms@.take(i as int));
                i += 1;
            }
            assert(arms@.take(arms.len() as int) == arms@);
            append(&mut out, &default.args);
        },
        Term::Ret(None) | Term::Unreachable => {},
    }
    out
}

/// A terminator's outgoing edges, each with the arguments it hands on.
fn successor_edges(term: &Term) -> (r: Vec<(BlockId, Vec<Value>)>)
    ensures
        r.len() == edges(*term).len(),
        forall|k: int|
            0 <= k < r.len() ==> (#[trigger] r@[k]).0 == edges(*term)[k].0 && r@[k].1@ == edges(
                *term,
            )[k].1,
{
    match term {
        Term::Jump(t) => vec![(t.to, t.args.clone())],
        Term::Branch { then, els, .. } => vec![(then.to, then.args.clone()), (els.to, els.args.clone())],
        Term::Switch { arms, default, .. } => {
            let ghost e = edges(*term);
            let mut out: Vec<(BlockId, Vec<Value>)> = Vec::new();
            let mut i: usize = 0;
            while i < arms.len()
                invariant
                    i <= arms.len(),
                    e == arms@.map_values(|a: (u32, Target)| (a.1.to, a.1.args@)).push((default.to, default.args@)),
                    out.len() == i,
                    forall|k: int| 0 <= k < i ==> (#[trigger] out@[k]).0 == e[k].0 && out@[k].1@ == e[k].1,
                decreases arms.len() - i,
            {
                out.push((arms[i].1.to, arms[i].1.args.clone()));
                i += 1;
            }
            out.push((default.to, default.args.clone()));
            out
        },
        Term::Ret(_) | Term::Throw(_) | Term::Unreachable => Vec::new(),
    }
}

// ---- views and their bases ----

/// The view an instruction defines, and the value it looks into: a field or element read,
/// a cast between a union and one of its variants, and the two tagged-result unwraps.
/// `Index` is not one: what it reads is retained, so its result owns itself.
pub open spec fn projection(inst: Inst) -> Option<(Value, Value)> {
    match inst.result {
        Some(v) => match inst.op {
            Op::Field { base, .. } => Some((v, base)),
            Op::Elem { base, .. } => Some((v, base)),
            Op::Cast(b) => Some((v, b)),
            Op::UnwrapOk(b) => Some((v, b)),
            Op::UnwrapErr(b) => Some((v, b)),
            _ => None,
        },
        None => None,
    }
}

/// The base map after a run of instructions, on top of `m`: each counted view maps to the
/// counted value it was read out of, the last definition winning.
pub open spec fn insts_bases(is: Seq<Inst>, p: Set<Value>, m: Map<Value, Value>) -> Map<Value, Value>
    decreases is.len(),
{
    if is.len() == 0 {
        m
    } else {
        let m1 = insts_bases(is.drop_last(), p, m);
        match projection(is.last()) {
            Some((v, b)) => if p.contains(v) && p.contains(b) {
                m1.insert(v, b)
            } else {
                m1
            },
            None => m1,
        }
    }
}

/// The base map of a run of blocks, in block order.
pub open spec fn blocks_bases(bs: Seq<Block>, p: Set<Value>) -> Map<Value, Value>
    decreases bs.len(),
{
    if bs.len() == 0 {
        Map::empty()
    } else {
        insts_bases(bs.last().insts@, p, blocks_bases(bs.drop_last(), p))
    }
}

/// Where each counted view of `f` was read out of.
pub open spec fn bases(f: Func) -> Map<Value, Value> {
    blocks_bases(f.blocks@, counted_values(f))
}

/// A base map relates counted values only.
pub open spec fn bases_within(m: Map<Value, Value>, p: Set<Value>) -> bool {
    forall|v: Value| #[trigger] m.dom().contains(v) ==> p.contains(v) && p.contains(m[v])
}

/// A map from values to values, held densely by value number.
pub struct BaseMap {
    slots: Vec<Option<Value>>,
}

impl View for BaseMap {
    type V = Map<Value, Value>;

    closed spec fn view(&self) -> Map<Value, Value> {
        Map::new(
            |v: Value| v < self.slots.len() && self.slots@[v as int] is Some,
            |v: Value| self.slots@[v as int].unwrap(),
        )
    }
}

impl BaseMap {
    /// The keys this map may hold: those below this bound.
    pub closed spec fn universe(&self) -> nat {
        self.slots.len() as nat
    }

    fn new(n: usize) -> (m: BaseMap)
        ensures
            m.universe() == n,
            m@ == Map::<Value, Value>::empty(),
    {
        let mut slots: Vec<Option<Value>> = Vec::new();
        let mut i: usize = 0;
        while i < n
            invariant
                i <= n,
                slots.len() == i,
                forall|j: int| 0 <= j < i ==> slots@[j] is None,
            decreases n - i,
        {
            slots.push(None);
            i += 1;
        }
        let m = BaseMap { slots };
        assert(m@ =~= Map::<Value, Value>::empty());
        m
    }

    fn get(&self, v: Value) -> (r: Option<Value>)
        ensures
            r == (if self@.dom().contains(v) {
                Some(self@[v])
            } else {
                None
            }),
    {
        if (v as usize) < self.slots.len() {
            self.slots[v as usize]
        } else {
            None
        }
    }

    fn contains_key(&self, v: Value) -> (b: bool)
        ensures
            b == self@.dom().contains(v),
    {
        (v as usize) < self.slots.len() && self.slots[v as usize].is_some()
    }

    fn set(&mut self, v: Value, b: Value)
        requires
            (v as nat) < old(self).universe(),
        ensures
            final(self).universe() == old(self).universe(),
            final(self)@ == old(self)@.insert(v, b),
    {
        self.slots.set(v as usize, Some(b));
        assert(self@ =~= old(self)@.insert(v, b));
    }
}

/// The base map of `f`: where each counted view was read out of.
fn base_of(f: &Func, ptr: &ValueSet) -> (m: BaseMap)
    requires
        f.wf(),
        ptr.universe() == f.reprs.len(),
        ptr@ == counted_values(*f),
    ensures
        m.universe() == f.reprs.len(),
        m@ == bases(*f),
        bases_within(m@, counted_values(*f)),
{
    let ghost p = counted_values(*f);
    let mut m = BaseMap::new(f.reprs.len());
    let mut i: usize = 0;
    while i < f.blocks.len()
        invariant
            i <= f.blocks.len(),
            ptr@ == p,
            p == counted_values(*f),
            m.universe() == f.reprs.len(),
            m@ == blocks_bases(f.blocks@.take(i as int), p),
            bases_within(m@, p),
        decreases f.blocks.len() - i,
    {
        let b = &f.blocks[i];
        let ghost start = m@;
        assert(f.blocks@.take(i + 1).drop_last() == f.blocks@.take(i as int));
        let mut k: usize = 0;
        while k < b.insts.len()
            invariant
                k <= b.insts.len(),
                b == f.blocks@[i as int],
                ptr@ == p,
                p == counted_values(*f),
                m.universe() == f.reprs.len(),
                m@ == insts_bases(b.insts@.take(k as int), p, start),
                bases_within(m@, p),
            decreases b.insts.len() - k,
        {
            let inst = &b.insts[k];
            assert(b.insts@.take(k + 1).drop_last() == b.insts@.take(k as int));
            assert(b.insts@.take(k + 1).last() == *inst);
            let projected: Option<(Value, Value)> = match (inst.result, &inst.op) {
                (Some(v), Op::Field { base, .. }) => Some((v, *base)),
                (Some(v), Op::Elem { base, .. }) => Some((v, *base)),
                (Some(v), Op::Cast(base)) => Some((v, *base)),
                (Some(v), Op::UnwrapOk(base)) => Some((v, *base)),
                (Some(v), Op::UnwrapErr(base)) => Some((v, *base)),
                _ => None,
            };
            assert(projected == projection(*inst));
            if let Some((v, base)) = projected {
                if ptr.contains(v) && ptr.contains(base) {
                    m.set(v, base);
                }
            }
            k += 1;
        }
        assert(b.insts@.take(b.insts.len() as int) == b.insts@);
        i += 1;
    }
    assert(f.blocks@.take(f.blocks.len() as int) == f.blocks@);
    m
}

/// `live` after marking `v` live, and with it every base it was read out of, stopping at
/// the first one that was live already.
pub open spec fn mark(live: Set<Value>, v: Value, bm: Map<Value, Value>, n: nat) -> Set<Value>
    decreases missing(live, n),
{
    if live.contains(v) || v >= n || n > u32::MAX as nat + 1 {
        live
    } else {
        proof {
            lemma_missing_subset(live, live.insert(v), n);
            assert(live.insert(v).contains(v));
        }
        if bm.dom().contains(v) {
            mark(live.insert(v), bm[v], bm, n)
        } else {
            live.insert(v)
        }
    }
}


/// Mark a value live, and with it every base it was read out of.
fn mark_live(live: &mut ValueSet, v: Value, bm: &BaseMap)
    requires
        old(live).wf(),
        (v as nat) < old(live).universe(),
        bm.universe() == old(live).universe(),
        forall|x: Value| #[trigger] bm@.dom().contains(x) ==> (bm@[x] as nat) < old(live).universe(),
    ensures
        final(live).wf(),
        final(live).universe() == old(live).universe(),
        final(live)@ == mark(old(live)@, v, bm@, old(live).universe()),
{
    let ghost n = live.universe();
    let mut cur: Option<Value> = Some(v);
    while cur.is_some()
        invariant
            live.wf(),
            live.universe() == n,
            n <= u32::MAX as nat + 1,
            bm.universe() == n,
            forall|x: Value| #[trigger] bm@.dom().contains(x) ==> (bm@[x] as nat) < n,
            cur matches Some(x) ==> (x as nat) < n && mark(live@, x, bm@, n) == mark(old(live)@, v, bm@, n),
            cur is None ==> live@ == mark(old(live)@, v, bm@, n),
        decreases missing(live@, n), if cur is Some { 1nat } else { 0nat },
    {
        let x = cur.unwrap();
        let ghost before = live@;
        if !live.insert(x) {
            assert(live@ =~= before);
            cur = None;
        } else {
            proof {
                lemma_missing_subset(before, live@, n);
                assert(live@.contains(x) && !before.contains(x) && x < n);
                assert(missing(live@, n) < missing(before, n));
            }
            cur = bm.get(x);
        }
    }
}

// ---- the closure of a set under bases ----

/// Following the bases from `s`, `k` steps.
pub open spec fn chain(bm: Map<Value, Value>, s: Value, k: nat) -> Option<Value>
    decreases k,
{
    if k == 0 {
        Some(s)
    } else {
        match chain(bm, s, (k - 1) as nat) {
            Some(x) => if bm.dom().contains(x) {
                Some(bm[x])
            } else {
                None
            },
            None => None,
        }
    }
}

/// `s` with every base its members were read out of, transitively.
pub open spec fn closure(s: Set<Value>, bm: Map<Value, Value>) -> Set<Value> {
    Set::new(|x: Value| exists|y: Value, k: nat| s.contains(y) && chain(bm, y, k) == Some(x))
}

/// A set holds the base of each of its members that has one.
pub open spec fn closed_under(s: Set<Value>, bm: Map<Value, Value>) -> bool {
    forall|x: Value| #[trigger] s.contains(x) && bm.dom().contains(x) ==> s.contains(bm[x])
}

/// A closed superset of `s` holds its closure.
proof fn lemma_closure_least(s: Set<Value>, t: Set<Value>, bm: Map<Value, Value>)
    requires
        s.subset_of(t),
        closed_under(t, bm),
    ensures
        closure(s, bm).subset_of(t),
{
    assert forall|x: Value| closure(s, bm).contains(x) implies t.contains(x) by {
        let (y, k) = choose|y: Value, k: nat| s.contains(y) && chain(bm, y, k) == Some(x);
        lemma_chain_within(t, bm, y, k);
    }
}

proof fn lemma_chain_within(t: Set<Value>, bm: Map<Value, Value>, y: Value, k: nat)
    requires
        t.contains(y),
        closed_under(t, bm),
    ensures
        chain(bm, y, k) matches Some(x) ==> t.contains(x),
    decreases k,
{
    if k > 0 {
        lemma_chain_within(t, bm, y, (k - 1) as nat);
    }
}

/// The closure holds the set, is closed, and grows with the set.
proof fn lemma_closure_basics(s: Set<Value>, bm: Map<Value, Value>)
    ensures
        s.subset_of(closure(s, bm)),
        closed_under(closure(s, bm), bm),
        forall|t: Set<Value>| s.subset_of(t) ==> #[trigger] closure(s, bm).subset_of(closure(t, bm)),
{
    assert forall|x: Value| s.contains(x) implies closure(s, bm).contains(x) by {
        assert(chain(bm, x, 0) == Some(x));
    }
    assert forall|x: Value| #[trigger] closure(s, bm).contains(x) && bm.dom().contains(x) implies closure(s, bm).contains(bm[x]) by {
        let (y, k) = choose|y: Value, k: nat| s.contains(y) && chain(bm, y, k) == Some(x);
        assert(chain(bm, y, k + 1) == Some(bm[x]));
    }
    assert forall|t: Set<Value>| s.subset_of(t) implies #[trigger] closure(s, bm).subset_of(closure(t, bm)) by {
        assert forall|x: Value| closure(s, bm).contains(x) implies closure(t, bm).contains(x) by {
            let (y, k) = choose|y: Value, k: nat| s.contains(y) && chain(bm, y, k) == Some(x);
            assert(t.contains(y));
        }
    }
}

/// Extend a live set with the bases every live value was read out of.
fn with_bases(set: &mut ValueSet, bm: &BaseMap)
    requires
        old(set).wf(),
        bm.universe() == old(set).universe(),
        forall|x: Value| #[trigger] bm@.dom().contains(x) ==> (bm@[x] as nat) < old(set).universe(),
    ensures
        final(set).wf(),
        final(set).universe() == old(set).universe(),
        final(set)@ == closure(old(set)@, bm@),
{
    let ghost n = set.universe();
    let ghost s0 = set@;
    proof {
        lemma_closure_basics(s0, bm@);
    }
    let mut queue: Vec<Value> = set.members();
    proof {
        super::vset::lemma_members_below(set@, n);
        set.lemma_bounded();
    }
    while queue.len() > 0
        invariant
            set.wf(),
            set.universe() == n,
            n <= u32::MAX as nat + 1,
            bm.universe() == n,
            forall|x: Value| #[trigger] bm@.dom().contains(x) ==> (bm@[x] as nat) < n,
            s0.subset_of(set@),
            set@.subset_of(closure(s0, bm@)),
            closed_under(closure(s0, bm@), bm@),
            forall|x: Value| #[trigger] queue@.contains(x) ==> set@.contains(x),
            forall|x: Value|
                #[trigger] set@.contains(x) && !queue@.contains(x) && bm@.dom().contains(x) ==> set@.contains(bm@[x]),
        decreases missing(set@, n), queue.len(),
    {
        let ghost q0 = queue@;
        let ghost before = set@;
        let x = queue.pop().unwrap();
        let ghost popped = queue@;
        assert(q0 == popped.push(x));
        assert(q0[q0.len() - 1] == x);
        assert(q0.contains(x));
        assert(before.contains(x));
        assert(closure(s0, bm@).contains(x));
        if let Some(b) = bm.get(x) {
            if set.insert(b) {
                proof {
                    lemma_missing_subset(before, set@, n);
                    assert(set@.contains(b));
                }
                queue.push(b);
            } else {
                assert(set@ =~= before);
            }
        }
        proof {
            assert(before.subset_of(set@));
            assert forall|y: Value| #[trigger] queue@.contains(y) implies set@.contains(y) by {
                let j = choose|j: int| 0 <= j < queue@.len() && queue@[j] == y;
                if j < popped.len() {
                    assert(q0[j] == y);
                    assert(q0.contains(y));
                }
            }
            assert forall|y: Value|
                #[trigger] set@.contains(y) && !queue@.contains(y) && bm@.dom().contains(y) implies set@.contains(bm@[y]) by {
                if y != x && before.contains(y) {
                    if q0.contains(y) {
                        let j = choose|j: int| 0 <= j < q0.len() && q0[j] == y;
                        assert(popped[j] == y);
                        assert(queue@[j] == y);
                    }
                } else if y != x {
                    assert(queue@[queue@.len() - 1] == y);
                }
            }
        }
    }
    proof {
        assert(closed_under(set@, bm@));
        lemma_closure_least(s0, set@, bm@);
        assert(set@ =~= closure(s0, bm@));
    }
}

// ---- liveness ----

/// The position of the block with id `id`; block ids are distinct.
pub open spec fn pos_of(f: Func, id: BlockId) -> int {
    choose|i: int| 0 <= i < f.blocks.len() && f.blocks@[i].id == id
}

/// The values a block defines: its parameters and its instructions' results.
pub open spec fn defs_of(b: Block) -> Set<Value> {
    Set::new(
        |v: Value|
            b.params@.contains(v) || exists|k: int|
                0 <= k < b.insts.len() && #[trigger] b.insts@[k].result == Some(v),
    )
}

/// The counted values a block's instructions use, consuming or borrowing.
pub open spec fn uses_of(b: Block, p: Set<Value>) -> Set<Value> {
    Set::new(
        |v: Value|
            exists|k: int|
                0 <= k < b.insts.len() && (only_in(consuming_raw(#[trigger] b.insts@[k].op), p).contains(v)
                    || only_in(borrowing_raw(b.insts@[k].op), p).contains(v)),
    )
}

/// What block `i` hands on, given live-in sets `l` for every block: what its successors
/// need, and the counted values its terminator consumes, before bases are added.
pub open spec fn raw_out(f: Func, l: Seq<Set<Value>>, i: int) -> Set<Value> {
    let t = f.blocks@[i].term;
    let p = counted_values(f);
    Set::new(
        |v: Value|
            (exists|k: int| 0 <= k < edges(t).len() && #[trigger] l[pos_of(f, edges(t)[k].0)].contains(v))
                || (exists|k: int| 0 <= k < edges(t).len() && #[trigger] edges(t)[k].1.contains(v) && p.contains(v))
                || (p.contains(v) && term_consumed(t).contains(v)),
    )
}

/// The live-out set of block `i` given live-in sets `l`.
pub open spec fn out_of(f: Func, l: Seq<Set<Value>>, i: int) -> Set<Value> {
    closure(raw_out(f, l, i), bases(f))
}

/// The live-in set of block `i` that the dataflow equations give from live-in sets `l`:
/// what it hands on or uses, less what it defines, with bases added.
pub open spec fn live_step(f: Func, l: Seq<Set<Value>>, i: int) -> Set<Value> {
    let b = f.blocks@[i];
    closure(
        raw_out(f, l, i).difference(defs_of(b)).union(uses_of(b, counted_values(f)).difference(defs_of(b))),
        bases(f),
    )
}

/// Each set of `l` lies within the matching set of `q`.
pub open spec fn below(l: Seq<Set<Value>>, q: Seq<Set<Value>>) -> bool {
    &&& l.len() == q.len()
    &&& forall|i: int| 0 <= i < l.len() ==> (#[trigger] l[i]).subset_of(q[i])
}

/// `q` is closed under the dataflow equations: a set of live-in sets none of them violates.
pub open spec fn post_fixpoint(f: Func, q: Seq<Set<Value>>) -> bool {
    &&& q.len() == f.blocks.len()
    &&& forall|i: int| 0 <= i < q.len() ==> #[trigger] live_step(f, q, i).subset_of(q[i])
}

/// `l` solves the dataflow equations.
pub open spec fn fixpoint(f: Func, l: Seq<Set<Value>>) -> bool {
    &&& l.len() == f.blocks.len()
    &&& forall|i: int| 0 <= i < l.len() ==> #[trigger] l[i] == live_step(f, l, i)
}

/// `l` is the least solution of the dataflow equations.
pub open spec fn least_fixpoint(f: Func, l: Seq<Set<Value>>) -> bool {
    &&& fixpoint(f, l)
    &&& forall|q: Seq<Set<Value>>| post_fixpoint(f, q) ==> below(l, q)
}

/// The live-in sets of `f`'s blocks, by block position.
pub open spec fn live_in(f: Func) -> Seq<Set<Value>> {
    choose|l: Seq<Set<Value>>| least_fixpoint(f, l)
}

/// The live-out sets of `f`'s blocks, by block position.
pub open spec fn live_out(f: Func) -> Seq<Set<Value>> {
    Seq::new(f.blocks.len() as nat, |i: int| out_of(f, live_in(f), i))
}

/// With distinct ids, a block's id leads back to its position.
pub(crate) proof fn lemma_pos_of(f: Func, j: int)
    requires
        f.cfg_ok(),
        0 <= j < f.blocks.len(),
    ensures
        pos_of(f, f.blocks@[j].id) == j,
{
    let id = f.blocks@[j].id;
    assert(f.block_ids()[j] == id);
    let i = pos_of(f, id);
    assert(f.blocks@[i].id == id);
    assert(f.block_ids()[i] == id);
}

/// Every edge of a well-formed function leads to a block.
pub(crate) proof fn lemma_edge_target(f: Func, i: int, k: int)
    requires
        f.cfg_ok(),
        0 <= i < f.blocks.len(),
        0 <= k < edges(f.blocks@[i].term).len(),
    ensures
        0 <= pos_of(f, edges(f.blocks@[i].term)[k].0) < f.blocks.len(),
        f.blocks@[pos_of(f, edges(f.blocks@[i].term)[k].0)].id == edges(f.blocks@[i].term)[k].0,
{
    let t = f.blocks@[i].term;
    lemma_edges_successors(t);
    assert(f.has_block(term_successors(t)[k]));
    let id = edges(t)[k].0;
    let j = choose|j: int| 0 <= j < f.block_ids().len() && f.block_ids()[j] == id;
    assert(f.blocks@[j].id == id);
}

/// The equations are monotone: larger live-in sets give larger results.
proof fn lemma_step_monotone(f: Func, l: Seq<Set<Value>>, q: Seq<Set<Value>>, i: int)
    requires
        f.cfg_ok(),
        l.len() == f.blocks.len(),
        below(l, q),
        0 <= i < f.blocks.len(),
    ensures
        raw_out(f, l, i).subset_of(raw_out(f, q, i)),
        out_of(f, l, i).subset_of(out_of(f, q, i)),
        live_step(f, l, i).subset_of(live_step(f, q, i)),
{
    let t = f.blocks@[i].term;
    assert forall|v: Value| raw_out(f, l, i).contains(v) implies raw_out(f, q, i).contains(v) by {
        if exists|k: int| 0 <= k < edges(t).len() && #[trigger] l[pos_of(f, edges(t)[k].0)].contains(v) {
            let k = choose|k: int| 0 <= k < edges(t).len() && #[trigger] l[pos_of(f, edges(t)[k].0)].contains(v);
            lemma_edge_target(f, i, k);
            assert(q[pos_of(f, edges(t)[k].0)].contains(v));
        }
    }
    let b = f.blocks@[i];
    let pl = raw_out(f, l, i).difference(defs_of(b)).union(uses_of(b, counted_values(f)).difference(defs_of(b)));
    let pq = raw_out(f, q, i).difference(defs_of(b)).union(uses_of(b, counted_values(f)).difference(defs_of(b)));
    assert(pl.subset_of(pq));
    lemma_closure_basics(raw_out(f, l, i), bases(f));
    lemma_closure_basics(pl, bases(f));
}

/// There is one least solution.
pub(crate) proof fn lemma_least_unique(f: Func, l: Seq<Set<Value>>)
    requires
        least_fixpoint(f, l),
    ensures
        live_in(f) == l,
{
    assert(least_fixpoint(f, live_in(f)));
    let m = live_in(f);
    assert(post_fixpoint(f, l));
    assert(post_fixpoint(f, m));
    assert(below(l, m));
    assert(below(m, l));
    assert forall|i: int| 0 <= i < l.len() implies l[i] == m[i] by {
        assert(l[i] =~= m[i]);
    }
    assert(l =~= m);
}

/// The sets a vector of value sets holds.
pub open spec fn views(v: Seq<ValueSet>) -> Seq<Set<Value>> {
    v.map_values(|s: ValueSet| s@)
}

/// `only_in` keeps exactly the elements `keep` holds.
pub(crate) proof fn lemma_only_in(s: Seq<Value>, keep: Set<Value>)
    ensures
        forall|v: Value| #[trigger] only_in(s, keep).contains(v) <==> s.contains(v) && keep.contains(v),
    decreases s.len(),
{
    if s.len() > 0 {
        let r = only_in(s.drop_last(), keep);
        lemma_only_in(s.drop_last(), keep);
        assert forall|v: Value| #[trigger] only_in(s, keep).contains(v) <==> s.contains(v) && keep.contains(v) by {
            if s.contains(v) && keep.contains(v) {
                let j = choose|j: int| 0 <= j < s.len() && s[j] == v;
                if j < s.len() - 1 {
                    assert(s.drop_last()[j] == v);
                    assert(s.drop_last().contains(v));
                    assert(r.contains(v));
                    let m = choose|m: int| 0 <= m < r.len() && r[m] == v;
                    if keep.contains(s.last()) {
                        assert(r.push(s.last())[m] == v);
                    }
                } else {
                    assert(r.push(s.last())[r.len() as int] == v);
                }
            }
            if only_in(s, keep).contains(v) {
                if keep.contains(s.last()) && v == s.last() {
                    assert(s[s.len() - 1] == v);
                } else {
                    let m = choose|m: int| 0 <= m < only_in(s, keep).len() && only_in(s, keep)[m] == v;
                    if keep.contains(s.last()) {
                        if m < r.len() {
                            assert(r[m] == v);
                        }
                    } else {
                        assert(r[m] == v);
                    }
                    assert(r.contains(v));
                    let j = choose|j: int| 0 <= j < s.drop_last().len() && s.drop_last()[j] == v;
                    assert(s[j] == v);
                }
            }
        }
    }
}

/// The bases of a function's views are values of it.
proof fn lemma_bases_bounded(f: Func, bm: Map<Value, Value>)
    requires
        bases_within(bm, counted_values(f)),
    ensures
        forall|x: Value| #[trigger] bm.dom().contains(x) ==> (bm[x] as nat) < f.reprs.len(),
{
}

/// A prefix one longer holds one more element.
proof fn lemma_take_one_more(s: Seq<Value>, i: int)
    requires
        0 <= i < s.len(),
    ensures
        forall|w: Value| #[trigger] s.take(i + 1).contains(w) <==> (s.take(i).contains(w) || w == s[i]),
{
    let a = s.take(i + 1);
    let b = s.take(i);
    assert forall|w: Value| #[trigger] a.contains(w) <==> (b.contains(w) || w == s[i]) by {
        if a.contains(w) {
            let j = choose|j: int| 0 <= j < a.len() && a[j] == w;
            if j < i {
                assert(b[j] == w);
            }
        }
        if b.contains(w) {
            let j = choose|j: int| 0 <= j < b.len() && b[j] == w;
            assert(a[j] == w);
        }
        if w == s[i] {
            assert(a[i] == w);
        }
    }
}

/// Add the members of `vs` that `keep` holds.
fn insert_kept(set: &mut ValueSet, vs: &Vec<Value>, keep: &ValueSet)
    requires
        keep@.subset_of(Set::new(|v: Value| (v as nat) < old(set).universe())),
    ensures
        final(set).universe() == old(set).universe(),
        final(set)@ == old(set)@.union(Set::new(|v: Value| vs@.contains(v) && keep@.contains(v))),
{
    let mut i: usize = 0;
    while i < vs.len()
        invariant
            i <= vs.len(),
            set.universe() == old(set).universe(),
            keep@.subset_of(Set::new(|v: Value| (v as nat) < old(set).universe())),
            set@ == old(set)@.union(Set::new(|v: Value| vs@.take(i as int).contains(v) && keep@.contains(v))),
        decreases vs.len() - i,
    {
        let v = vs[i];
        if keep.contains(v) {
            assert(Set::new(|v: Value| (v as nat) < old(set).universe()).contains(v));
            set.insert(v);
        }
        proof {
            lemma_take_one_more(vs@, i as int);
        }
        assert(set@ =~= old(set)@.union(Set::new(|v: Value| vs@.take(i + 1).contains(v) && keep@.contains(v))));
        i += 1;
    }
    assert(vs@.take(vs.len() as int) == vs@);
}

/// Add the members of `vs` that `skip` does not hold.
fn insert_outside(set: &mut ValueSet, vs: &Vec<Value>, skip: &ValueSet)
    requires
        forall|k: int| 0 <= k < vs.len() ==> (vs@[k] as nat) < old(set).universe(),
    ensures
        final(set).universe() == old(set).universe(),
        final(set)@ == old(set)@.union(Set::new(|v: Value| vs@.contains(v) && !skip@.contains(v))),
{
    let mut i: usize = 0;
    while i < vs.len()
        invariant
            i <= vs.len(),
            set.universe() == old(set).universe(),
            forall|k: int| 0 <= k < vs.len() ==> (vs@[k] as nat) < old(set).universe(),
            set@ == old(set)@.union(Set::new(|v: Value| vs@.take(i as int).contains(v) && !skip@.contains(v))),
        decreases vs.len() - i,
    {
        let v = vs[i];
        if !skip.contains(v) {
            set.insert(v);
        }
        proof {
            lemma_take_one_more(vs@, i as int);
        }
        assert(set@ =~= old(set)@.union(Set::new(|v: Value| vs@.take(i + 1).contains(v) && !skip@.contains(v))));
        i += 1;
    }
    assert(vs@.take(vs.len() as int) == vs@);
}

/// Add every member of `vs`.
fn insert_each(set: &mut ValueSet, vs: &Vec<Value>)
    requires
        forall|k: int| 0 <= k < vs.len() ==> (vs@[k] as nat) < old(set).universe(),
    ensures
        final(set).universe() == old(set).universe(),
        final(set)@ == old(set)@.union(Set::new(|v: Value| vs@.contains(v))),
{
    let mut i: usize = 0;
    while i < vs.len()
        invariant
            i <= vs.len(),
            set.universe() == old(set).universe(),
            forall|k: int| 0 <= k < vs.len() ==> (vs@[k] as nat) < old(set).universe(),
            set@ == old(set)@.union(Set::new(|v: Value| vs@.take(i as int).contains(v))),
        decreases vs.len() - i,
    {
        set.insert(vs[i]);
        proof {
            lemma_take_one_more(vs@, i as int);
        }
        assert(set@ =~= old(set)@.union(Set::new(|v: Value| vs@.take(i + 1).contains(v))));
        i += 1;
    }
    assert(vs@.take(vs.len() as int) == vs@);
}

/// Block `i`'s live-out and live-in sets from the dataflow equations, given the current
/// live-in sets of every block.
fn block_flow(f: &Func, ptr: &ValueSet, bm: &BaseMap, ins: &Vec<ValueSet>, i: usize) -> (r: (ValueSet, ValueSet))
    requires
        f.wf(),
        i < f.blocks.len(),
        ptr.universe() == f.reprs.len(),
        ptr@ == counted_values(*f),
        bm.universe() == f.reprs.len(),
        bm@ == bases(*f),
        bases_within(bm@, counted_values(*f)),
        ins.len() == f.blocks.len(),
        forall|j: int| 0 <= j < ins.len() ==> (#[trigger] ins@[j]).universe() == f.reprs.len(),
    ensures
        r.0.universe() == f.reprs.len(),
        r.1.universe() == f.reprs.len(),
        r.0@ == out_of(*f, views(ins@), i as int),
        r.1@ == live_step(*f, views(ins@), i as int),
{
    let ghost l = views(ins@);
    let ghost p = counted_values(*f);
    let ghost t = f.blocks@[i as int].term;
    let n = f.reprs.len();
    let b = &f.blocks[i];
    assert(p.subset_of(Set::new(|v: Value| (v as nat) < n)));
    let mut out = ValueSet::new(n);
    let es = successor_edges(&b.term);
    let mut k: usize = 0;
    while k < es.len()
        invariant
            f.wf(),
            i < f.blocks.len(),
            n == f.reprs.len(),
            b == f.blocks@[i as int],
            t == b.term,
            l == views(ins@),
            p == counted_values(*f),
            p.subset_of(Set::new(|v: Value| (v as nat) < n)),
            ptr@ == p,
            ptr.universe() == n,
            ins.len() == f.blocks.len(),
            forall|j: int| 0 <= j < ins.len() ==> (#[trigger] ins@[j]).universe() == n,
            k <= es.len(),
            es.len() == edges(t).len(),
            forall|k2: int|
                0 <= k2 < es.len() ==> (#[trigger] es@[k2]).0 == edges(t)[k2].0 && es@[k2].1@ == edges(t)[k2].1,
            out.universe() == n,
            out@ == Set::new(
                |v: Value|
                    (exists|k2: int| 0 <= k2 < k && #[trigger] l[pos_of(*f, edges(t)[k2].0)].contains(v))
                        || (exists|k2: int| 0 <= k2 < k && #[trigger] edges(t)[k2].1.contains(v) && p.contains(v)),
            ),
        decreases es.len() - k,
    {
        let ghost before = out@;
        proof {
            lemma_edge_target(*f, i as int, k as int);
            let j0 = pos_of(*f, edges(t)[k as int].0);
            assert(f.block_ids()[j0] == edges(t)[k as int].0);
        }
        let j = block_index(f, es[k].0);
        proof {
            lemma_pos_of(*f, j as int);
        }
        out.union_with(&ins[j]);
        insert_kept(&mut out, &es[k].1, ptr);
        assert forall|v: Value|
            out@.contains(v) <==> ((exists|k2: int| 0 <= k2 < k + 1 && #[trigger] l[pos_of(*f, edges(t)[k2].0)].contains(v))
                || (exists|k2: int| 0 <= k2 < k + 1 && #[trigger] edges(t)[k2].1.contains(v) && p.contains(v))) by {
            assert(l[j as int] == ins@[j as int]@);
            if out@.contains(v) {
                if !before.contains(v) {
                    if l[j as int].contains(v) {
                        assert(l[pos_of(*f, edges(t)[k as int].0)].contains(v));
                    } else {
                        assert(edges(t)[k as int].1.contains(v));
                    }
                }
            }
            if exists|k2: int| 0 <= k2 < k + 1 && #[trigger] l[pos_of(*f, edges(t)[k2].0)].contains(v) {
                let k2 = choose|k2: int| 0 <= k2 < k + 1 && #[trigger] l[pos_of(*f, edges(t)[k2].0)].contains(v);
                if k2 < k {
                    assert(before.contains(v));
                }
            }
            if exists|k2: int| 0 <= k2 < k + 1 && #[trigger] edges(t)[k2].1.contains(v) && p.contains(v) {
                let k2 = choose|k2: int| 0 <= k2 < k + 1 && #[trigger] edges(t)[k2].1.contains(v) && p.contains(v);
                if k2 < k {
                    assert(before.contains(v));
                }
            }
        }
        assert(out@ =~= Set::new(
            |v: Value|
                (exists|k2: int| 0 <= k2 < k + 1 && #[trigger] l[pos_of(*f, edges(t)[k2].0)].contains(v))
                    || (exists|k2: int| 0 <= k2 < k + 1 && #[trigger] edges(t)[k2].1.contains(v) && p.contains(v)),
        ));
        k += 1;
    }
    let tc = term_consuming(&b.term);
    insert_kept(&mut out, &tc, ptr);
    assert(out@ =~= raw_out(*f, l, i as int));
    // defs: the block's parameters and results
    proof {
        assert forall|a: int| 0 <= a < b.params.len() implies (b.params@[a] as nat) < n by {
            assert(f.blocks@[i as int] == *b);
        }
    }
    let mut defs = ValueSet::new(n);
    insert_each(&mut defs, &b.params);
    let mut k: usize = 0;
    while k < b.insts.len()
        invariant
            f.wf(),
            i < f.blocks.len(),
            n == f.reprs.len(),
            b == f.blocks@[i as int],
            k <= b.insts.len(),
            defs.universe() == n,
            defs@ == Set::new(
                |v: Value|
                    b.params@.contains(v) || exists|k2: int| 0 <= k2 < k && #[trigger] b.insts@[k2].result == Some(v),
            ),
        decreases b.insts.len() - k,
    {
        if let Some(v) = b.insts[k].result {
            assert(b.insts@[k as int].result matches Some(x) ==> x < f.reprs.len());
            defs.insert(v);
        }
        assert(defs@ =~= Set::new(
            |v: Value|
                b.params@.contains(v) || exists|k2: int| 0 <= k2 < k + 1 && #[trigger] b.insts@[k2].result == Some(v),
        ));
        k += 1;
    }
    assert(defs@ =~= defs_of(*b));
    let mut ins_b = out.copy();
    ins_b.remove_all(&defs);
    let mut k: usize = 0;
    while k < b.insts.len()
        invariant
            n == f.reprs.len(),
            b == f.blocks@[i as int],
            p == counted_values(*f),
            p.subset_of(Set::new(|v: Value| (v as nat) < n)),
            ptr@ == p,
            k <= b.insts.len(),
            defs@ == defs_of(*b),
            ins_b.universe() == n,
            ins_b@ == raw_out(*f, l, i as int).difference(defs@).union(Set::new(
                |v: Value|
                    (exists|k2: int|
                        0 <= k2 < k && (only_in(consuming_raw(#[trigger] b.insts@[k2].op), p).contains(v)
                            || only_in(borrowing_raw(b.insts@[k2].op), p).contains(v))) && !defs@.contains(v),
            )),
        decreases b.insts.len() - k,
    {
        let ghost before = ins_b@;
        let (c, br) = operand_uses(&b.insts[k].op, ptr);
        proof {
            lemma_only_in(consuming_raw(b.insts@[k as int].op), p);
            lemma_only_in(borrowing_raw(b.insts@[k as int].op), p);
            assert forall|a: int| 0 <= a < c.len() implies (c@[a] as nat) < n by {
                assert(c@.contains(c@[a]));
            }
            assert forall|a: int| 0 <= a < br.len() implies (br@[a] as nat) < n by {
                assert(br@.contains(br@[a]));
            }
        }
        insert_outside(&mut ins_b, &c, &defs);
        insert_outside(&mut ins_b, &br, &defs);
        assert(ins_b@ =~= raw_out(*f, l, i as int).difference(defs@).union(Set::new(
            |v: Value|
                (exists|k2: int|
                    0 <= k2 < k + 1 && (only_in(consuming_raw(#[trigger] b.insts@[k2].op), p).contains(v)
                        || only_in(borrowing_raw(b.insts@[k2].op), p).contains(v))) && !defs@.contains(v),
        ))) by {
            assert forall|v: Value|
                (exists|k2: int|
                    0 <= k2 < k + 1 && (only_in(consuming_raw(#[trigger] b.insts@[k2].op), p).contains(v)
                        || only_in(borrowing_raw(b.insts@[k2].op), p).contains(v))) && !defs@.contains(v)
                implies ins_b@.contains(v) by {
                let k2 = choose|k2: int|
                    0 <= k2 < k + 1 && (only_in(consuming_raw(#[trigger] b.insts@[k2].op), p).contains(v)
                        || only_in(borrowing_raw(b.insts@[k2].op), p).contains(v));
                if k2 < k {
                    assert(before.contains(v));
                }
            }
        }
        k += 1;
    }
    assert(ins_b@ =~= raw_out(*f, l, i as int).difference(defs_of(*b)).union(
        uses_of(*b, p).difference(defs_of(*b)),
    ));
    proof {
        lemma_bases_bounded(*f, bm@);
    }
    with_bases(&mut out, bm);
    with_bases(&mut ins_b, bm);
    (out, ins_b)
}

/// The values below `n` a run of sets lack, summed.
pub open spec fn total_missing(s: Seq<Set<Value>>, n: nat) -> nat
    decreases s.len(),
{
    if s.len() == 0 {
        0
    } else {
        total_missing(s.drop_last(), n) + missing(s.last(), n)
    }
}

/// Growing one set of a run lowers the sum of what the run lacks, strictly if it gained a
/// value below `n`.
proof fn lemma_total_update(s: Seq<Set<Value>>, i: int, t: Set<Value>, n: nat)
    requires
        0 <= i < s.len(),
        s[i].subset_of(t),
        n <= u32::MAX as nat + 1,
    ensures
        total_missing(s.update(i, t), n) <= total_missing(s, n),
        (exists|v: Value| v < n && t.contains(v) && !s[i].contains(v)) ==> total_missing(s.update(i, t), n)
            < total_missing(s, n),
    decreases s.len(),
{
    let u = s.update(i, t);
    if i == s.len() - 1 {
        assert(u.drop_last() =~= s.drop_last());
        lemma_missing_subset(s[i], t, n);
    } else {
        assert(u.drop_last() =~= s.drop_last().update(i, t));
        lemma_total_update(s.drop_last(), i, t, n);
    }
}

/// Raising block `i`'s live-in set to what the equations give keeps the iteration below
/// every post-fixpoint, below its own next step, and keeps live-out sets below theirs.
proof fn lemma_raise(f: Func, l: Seq<Set<Value>>, o: Seq<Set<Value>>, i: int)
    requires
        f.cfg_ok(),
        l.len() == f.blocks.len(),
        o.len() == f.blocks.len(),
        0 <= i < l.len(),
        forall|q: Seq<Set<Value>>| post_fixpoint(f, q) ==> below(l, q),
        forall|j: int| 0 <= j < l.len() ==> (#[trigger] l[j]).subset_of(live_step(f, l, j)),
        forall|j: int| 0 <= j < o.len() ==> (#[trigger] o[j]).subset_of(out_of(f, l, j)),
    ensures
        below(l, l.update(i, live_step(f, l, i))),
        forall|q: Seq<Set<Value>>| post_fixpoint(f, q) ==> below(l.update(i, live_step(f, l, i)), q),
        forall|j: int|
            0 <= j < l.len() ==> (#[trigger] l.update(i, live_step(f, l, i))[j]).subset_of(
                live_step(f, l.update(i, live_step(f, l, i)), j),
            ),
        forall|j: int| 0 <= j < o.len() ==> (#[trigger] o[j]).subset_of(out_of(f, l.update(i, live_step(f, l, i)), j)),
        forall|j: int|
            0 <= j < o.len() ==> (#[trigger] out_of(f, l, j)).subset_of(out_of(f, l.update(i, live_step(f, l, i)), j)),
{
    let l2 = l.update(i, live_step(f, l, i));
    assert(below(l, l2));
    assert forall|q: Seq<Set<Value>>| post_fixpoint(f, q) implies below(l2, q) by {
        lemma_step_monotone(f, l, q, i);
        assert(live_step(f, q, i).subset_of(q[i]));
    }
    assert forall|j: int| 0 <= j < l.len() implies (#[trigger] l2[j]).subset_of(live_step(f, l2, j)) by {
        lemma_step_monotone(f, l, l2, j);
    }
    assert forall|j: int| 0 <= j < o.len() implies (#[trigger] out_of(f, l, j)).subset_of(out_of(f, l2, j)) by {
        lemma_step_monotone(f, l, l2, j);
    }
    assert forall|j: int| 0 <= j < o.len() implies (#[trigger] o[j]).subset_of(out_of(f, l2, j)) by {
        lemma_step_monotone(f, l, l2, j);
    }
}


/// Live-in and live-out sets per block, by block position: the least solution of the
/// backward dataflow equations. A block's parameters are definitions, not live-in.
fn liveness(f: &Func, ptr: &ValueSet, bm: &BaseMap) -> (r: (Vec<ValueSet>, Vec<ValueSet>))
    requires
        f.wf(),
        ptr.universe() == f.reprs.len(),
        ptr@ == counted_values(*f),
        bm.universe() == f.reprs.len(),
        bm@ == bases(*f),
        bases_within(bm@, counted_values(*f)),
    ensures
        r.0.len() == f.blocks.len(),
        r.1.len() == f.blocks.len(),
        forall|j: int| 0 <= j < r.0.len() ==> (#[trigger] r.0@[j]).universe() == f.reprs.len(),
        forall|j: int| 0 <= j < r.1.len() ==> (#[trigger] r.1@[j]).universe() == f.reprs.len(),
        views(r.0@) == live_in(*f),
        views(r.1@) == live_out(*f),
{
    let n = f.reprs.len();
    let nb = f.blocks.len();
    let ghost nn = n as nat;
    let mut ins: Vec<ValueSet> = Vec::new();
    let mut outs: Vec<ValueSet> = Vec::new();
    let mut j: usize = 0;
    while j < nb
        invariant
            j <= nb,
            nb == f.blocks.len(),
            n == f.reprs.len(),
            n <= u32::MAX,
            ins.len() == j,
            outs.len() == j,
            forall|a: int| 0 <= a < j ==> (#[trigger] ins@[a]).universe() == n && ins@[a]@ == Set::<Value>::empty(),
            forall|a: int| 0 <= a < j ==> (#[trigger] outs@[a]).universe() == n && outs@[a]@ == Set::<Value>::empty(),
        decreases nb - j,
    {
        ins.push(ValueSet::new(n));
        outs.push(ValueSet::new(n));
        j += 1;
    }
    let mut changed = true;
    while changed
        invariant
            f.wf(),
            n == f.reprs.len(),
            nn == n,
            nb == f.blocks.len(),
            ptr.universe() == n,
            ptr@ == counted_values(*f),
            bm.universe() == n,
            bm@ == bases(*f),
            bases_within(bm@, counted_values(*f)),
            ins.len() == nb,
            outs.len() == nb,
            forall|a: int| 0 <= a < nb ==> (#[trigger] ins@[a]).universe() == n,
            forall|a: int| 0 <= a < nb ==> (#[trigger] outs@[a]).universe() == n,
            forall|q: Seq<Set<Value>>| post_fixpoint(*f, q) ==> below(views(ins@), q),
            forall|a: int| 0 <= a < nb ==> (#[trigger] views(ins@)[a]).subset_of(live_step(*f, views(ins@), a)),
            forall|a: int| 0 <= a < nb ==> (#[trigger] views(outs@)[a]).subset_of(out_of(*f, views(ins@), a)),
            !changed ==> fixpoint(*f, views(ins@)),
            !changed ==> forall|a: int| 0 <= a < nb ==> #[trigger] views(outs@)[a] == out_of(*f, views(ins@), a),
        decreases total_missing(views(ins@), nn) + total_missing(views(outs@), nn) + if changed { 1nat } else { 0nat },
    {
        changed = false;
        let ghost l0 = views(ins@);
        let ghost o0 = views(outs@);
        let mut idx = nb;
        while idx > 0
            invariant
                f.wf(),
                n == f.reprs.len(),
                nn == n,
                nb == f.blocks.len(),
                idx <= nb,
                ptr.universe() == n,
                ptr@ == counted_values(*f),
                bm.universe() == n,
                bm@ == bases(*f),
                bases_within(bm@, counted_values(*f)),
                ins.len() == nb,
                outs.len() == nb,
                forall|a: int| 0 <= a < nb ==> (#[trigger] ins@[a]).universe() == n,
                forall|a: int| 0 <= a < nb ==> (#[trigger] outs@[a]).universe() == n,
                forall|q: Seq<Set<Value>>| post_fixpoint(*f, q) ==> below(views(ins@), q),
                forall|a: int| 0 <= a < nb ==> (#[trigger] views(ins@)[a]).subset_of(live_step(*f, views(ins@), a)),
                forall|a: int| 0 <= a < nb ==> (#[trigger] views(outs@)[a]).subset_of(out_of(*f, views(ins@), a)),
                total_missing(views(ins@), nn) + total_missing(views(outs@), nn) <= total_missing(l0, nn)
                    + total_missing(o0, nn),
                changed ==> total_missing(views(ins@), nn) + total_missing(views(outs@), nn) < total_missing(l0, nn)
                    + total_missing(o0, nn),
                !changed ==> views(ins@) == l0 && views(outs@) == o0,
                !changed ==> forall|a: int|
                    idx <= a < nb ==> #[trigger] views(ins@)[a] == live_step(*f, views(ins@), a),
                !changed ==> forall|a: int|
                    idx <= a < nb ==> #[trigger] views(outs@)[a] == out_of(*f, views(ins@), a),
            decreases idx,
        {
            let i = idx - 1;
            let ghost l = views(ins@);
            let ghost o = views(outs@);
            let (out, inb) = block_flow(f, ptr, bm, &ins, i);
            proof {
                lemma_raise(*f, l, o, i as int);
                out.lemma_bounded();
                inb.lemma_bounded();
            }
            assert(o[i as int] == views(outs@)[i as int]);
            assert(o[i as int].subset_of(out@));
            assert(l[i as int] == views(ins@)[i as int]);
            assert(l[i as int].subset_of(inb@));
            let same_out = out.same(&outs[i]);
            if !same_out {
                proof {
                    lemma_total_update(o, i as int, out@, nn);
                    if forall|v: Value| v < nn && out@.contains(v) ==> o[i as int].contains(v) {
                        assert(out@ =~= outs@[i as int]@);
                    }
                }
                outs.set(i, out);
                assert(views(outs@) =~= o.update(i as int, out@));
                changed = true;
            }
            let ghost o1 = views(outs@);
            let same_in = inb.same(&ins[i]);
            if !same_in {
                proof {
                    lemma_total_update(l, i as int, inb@, nn);
                    if forall|v: Value| v < nn && inb@.contains(v) ==> l[i as int].contains(v) {
                        assert(inb@ =~= ins@[i as int]@);
                    }
                }
                ins.set(i, inb);
                assert(views(ins@) =~= l.update(i as int, inb@));
                changed = true;
            }
            proof {
                if same_in {
                    assert(views(ins@) =~= l);
                }
                assert forall|a: int| 0 <= a < nb implies (#[trigger] views(outs@)[a]).subset_of(out_of(*f, views(ins@), a)) by {
                    if a == i {
                        assert(views(outs@)[a] == out_of(*f, l, a) || views(outs@)[a] == o[a]);
                    }
                }
            }
            idx = i;
        }
    }
    proof {
        let l = views(ins@);
        assert forall|q: Seq<Set<Value>>| post_fixpoint(*f, q) implies below(l, q) by {}
        assert(least_fixpoint(*f, l));
        lemma_least_unique(*f, l);
        assert(views(outs@) =~= live_out(*f));
    }
    (ins, outs)
}

// ---- the backward walk over a block ----

/// A `Release` of `v`.
pub open spec fn release(v: Value) -> Inst {
    Inst { result: None, op: Op::Release(v) }
}

/// A `Retain` of `v`.
pub open spec fn retain(v: Value) -> Inst {
    Inst { result: None, op: Op::Retain(v) }
}

/// The borrowed operands `ws`, taken in order: each is marked live (with its bases), and
/// one that was dead before and is not a view gets released after the instruction.
pub open spec fn borrow_pass(
    ws: Seq<Value>,
    live: Set<Value>,
    rel: Seq<Value>,
    bm: Map<Value, Value>,
    n: nat,
) -> (Set<Value>, Seq<Value>)
    decreases ws.len(),
{
    if ws.len() == 0 {
        (live, rel)
    } else {
        let prev = borrow_pass(ws.drop_last(), live, rel, bm, n);
        let w = ws.last();
        let rel2 = if !prev.0.contains(w) && !bm.dom().contains(w) {
            prev.1.push(w)
        } else {
            prev.1
        };
        (mark(prev.0, w, bm, n), rel2)
    }
}

/// The consumed operands `ws`, taken in order: one still live afterwards, or a view, is
/// retained before the instruction; one that is not live is marked live.
pub open spec fn consume_pass(
    ws: Seq<Value>,
    live: Set<Value>,
    ret: Seq<Value>,
    bm: Map<Value, Value>,
    n: nat,
) -> (Set<Value>, Seq<Value>)
    decreases ws.len(),
{
    if ws.len() == 0 {
        (live, ret)
    } else {
        let prev = consume_pass(ws.drop_last(), live, ret, bm, n);
        let w = ws.last();
        if prev.0.contains(w) {
            (prev.0, prev.1.push(w))
        } else if bm.dom().contains(w) {
            (mark(prev.0, w, bm, n), prev.1.push(w))
        } else {
            (mark(prev.0, w, bm, n), prev.1)
        }
    }
}

/// `vs` read back to front, each made into an instruction by `mk`.
pub open spec fn backwards(vs: Seq<Value>, mk: spec_fn(Value) -> Inst) -> Seq<Inst> {
    Seq::new(vs.len(), |k: int| mk(vs[vs.len() - 1 - k]))
}

/// One instruction of the walk, given what is live after it: what is live before it, and
/// the instruction with its retains before it and its releases after it.
pub open spec fn step(inst: Inst, live: Set<Value>, p: Set<Value>, bm: Map<Value, Value>, n: nat) -> (
    Set<Value>,
    Seq<Inst>,
) {
    let dead_result = match inst.result {
        Some(v) => p.contains(v) && !live.contains(v) && !bm.dom().contains(v),
        None => false,
    };
    let rel0: Seq<Value> = if dead_result {
        seq![inst.result.unwrap()]
    } else {
        Seq::empty()
    };
    let live1 = match inst.result {
        Some(v) => live.remove(v),
        None => live,
    };
    let borrowed = borrow_pass(only_in(borrowing_raw(inst.op), p), live1, rel0, bm, n);
    let consumed = consume_pass(only_in(consuming_raw(inst.op), p), borrowed.0, Seq::empty(), bm, n);
    (
        consumed.0,
        backwards(consumed.1, |v: Value| retain(v)) + seq![inst] + backwards(
            borrowed.1,
            |v: Value| release(v),
        ),
    )
}

/// The walk over the last `k` instructions of `is`, back to front, from what is live at
/// the end of the block: what is live before them, and their rewritten instructions.
pub open spec fn walk_back(is: Seq<Inst>, live: Set<Value>, p: Set<Value>, bm: Map<Value, Value>, n: nat, k: nat) -> (
    Set<Value>,
    Seq<Inst>,
)
    decreases k,
{
    if k == 0 || k > is.len() {
        (live, Seq::empty())
    } else {
        let prev = walk_back(is, live, p, bm, n, (k - 1) as nat);
        let st = step(is[is.len() - k], prev.0, p, bm, n);
        (st.0, st.1 + prev.1)
    }
}

/// The walk over a whole block.
pub open spec fn walk(is: Seq<Inst>, live: Set<Value>, p: Set<Value>, bm: Map<Value, Value>, n: nat) -> (
    Set<Value>,
    Seq<Inst>,
) {
    walk_back(is, live, p, bm, n, is.len())
}

/// The instructions of a run of segments, the last one first.
pub open spec fn concat_rev(segs: Seq<Vec<Inst>>) -> Seq<Inst>
    decreases segs.len(),
{
    if segs.len() == 0 {
        Seq::empty()
    } else {
        segs.last()@ + concat_rev(segs.drop_last())
    }
}


/// One instruction of the walk over a block, back to front.
fn rc_step(inst: Inst, live: &mut ValueSet, ptr: &ValueSet, bm: &BaseMap) -> (seg: Vec<Inst>)
    requires
        old(live).wf(),
        ptr.universe() == old(live).universe(),
        bm.universe() == old(live).universe(),
        ptr@.subset_of(Set::new(|v: Value| (v as nat) < old(live).universe())),
        bases_within(bm@, ptr@),
    ensures
        final(live).wf(),
        final(live).universe() == old(live).universe(),
        (final(live)@, seg@) == step(inst, old(live)@, ptr@, bm@, old(live).universe()),
{
    let ghost n = live.universe();
    let ghost p = ptr@;
    let ghost live0 = live@;
    proof {
        assert forall|x: Value| #[trigger] bm@.dom().contains(x) implies (bm@[x] as nat) < n by {
            assert(p.contains(bm@[x]));
        }
    }
    let mut rel: Vec<Value> = Vec::new();
    if let Some(v) = inst.result {
        if ptr.contains(v) && !live.contains(v) && !bm.contains_key(v) {
            rel.push(v);
        }
        live.remove(v);
    }
    let ghost rel0 = rel@;
    let ghost live1 = live@;
    let (c, br) = operand_uses(&inst.op, ptr);
    proof {
        lemma_only_in(borrowing_raw(inst.op), p);
        lemma_only_in(consuming_raw(inst.op), p);
    }
    let mut a: usize = 0;
    while a < br.len()
        invariant
            a <= br.len(),
            br@ == only_in(borrowing_raw(inst.op), p),
            forall|v: Value| #[trigger] br@.contains(v) ==> p.contains(v),
            ptr@ == p,
            p.subset_of(Set::new(|v: Value| (v as nat) < n)),
            live.wf(),
            live.universe() == n,
            bm.universe() == n,
            forall|x: Value| #[trigger] bm@.dom().contains(x) ==> (bm@[x] as nat) < n,
            (live@, rel@) == borrow_pass(br@.take(a as int), live1, rel0, bm@, n),
        decreases br.len() - a,
    {
        let w = br[a];
        assert(br@.contains(w));
        assert(Set::new(|v: Value| (v as nat) < n).contains(w));
        assert(br@.take(a + 1).drop_last() == br@.take(a as int));
        let was = live.contains(w);
        mark_live(live, w, bm);
        if !was && !bm.contains_key(w) {
            rel.push(w);
        }
        a += 1;
    }
    assert(br@.take(br.len() as int) == br@);
    let ghost live2 = live@;
    let mut ret: Vec<Value> = Vec::new();
    let mut a: usize = 0;
    while a < c.len()
        invariant
            a <= c.len(),
            c@ == only_in(consuming_raw(inst.op), p),
            forall|v: Value| #[trigger] c@.contains(v) ==> p.contains(v),
            ptr@ == p,
            p.subset_of(Set::new(|v: Value| (v as nat) < n)),
            live.wf(),
            live.universe() == n,
            bm.universe() == n,
            forall|x: Value| #[trigger] bm@.dom().contains(x) ==> (bm@[x] as nat) < n,
            (live@, ret@) == consume_pass(c@.take(a as int), live2, Seq::empty(), bm@, n),
        decreases c.len() - a,
    {
        let w = c[a];
        assert(c@.contains(w));
        assert(Set::new(|v: Value| (v as nat) < n).contains(w));
        assert(c@.take(a + 1).drop_last() == c@.take(a as int));
        if live.contains(w) {
            ret.push(w);
        } else if bm.contains_key(w) {
            ret.push(w);
            mark_live(live, w, bm);
        } else {
            mark_live(live, w, bm);
        }
        a += 1;
    }
    assert(c@.take(c.len() as int) == c@);
    let mut seg: Vec<Inst> = Vec::new();
    let mut k = ret.len();
    while k > 0
        invariant
            k <= ret.len(),
            seg@ == Seq::new((ret.len() - k) as nat, |j: int| retain(ret@[ret.len() - 1 - j])),
        decreases k,
    {
        k -= 1;
        seg.push(Inst { result: None, op: Op::Retain(ret[k]) });
        assert(seg@ =~= Seq::new((ret.len() - k) as nat, |j: int| retain(ret@[ret.len() - 1 - j])));
    }
    let ghost before_inst = seg@;
    seg.push(inst);
    let mut k = rel.len();
    while k > 0
        invariant
            k <= rel.len(),
            seg@ == before_inst.push(inst) + Seq::new((rel.len() - k) as nat, |j: int| release(rel@[rel.len() - 1 - j])),
        decreases k,
    {
        k -= 1;
        seg.push(Inst { result: None, op: Op::Release(rel[k]) });
        assert(seg@ =~= before_inst.push(inst) + Seq::new((rel.len() - k) as nat, |j: int| release(rel@[rel.len() - 1 - j])));
    }
    assert(seg@ =~= backwards(ret@, |v: Value| retain(v)) + seq![inst] + backwards(rel@, |v: Value| release(v)));
    seg
}

/// The walk over a block's instructions, back to front, from what is live at its end.
fn rc_walk(insts: Vec<Inst>, live: &mut ValueSet, ptr: &ValueSet, bm: &BaseMap) -> (body: Vec<Inst>)
    requires
        old(live).wf(),
        ptr.universe() == old(live).universe(),
        bm.universe() == old(live).universe(),
        ptr@.subset_of(Set::new(|v: Value| (v as nat) < old(live).universe())),
        bases_within(bm@, ptr@),
    ensures
        final(live).wf(),
        final(live).universe() == old(live).universe(),
        (final(live)@, body@) == walk(insts@, old(live)@, ptr@, bm@, old(live).universe()),
{
    let ghost orig = insts@;
    let ghost n = live.universe();
    let ghost live0 = live@;
    let mut rest = insts;
    assert(orig.len() == rest.len());
    let mut segs: Vec<Vec<Inst>> = Vec::new();
    let mut k: usize = 0;
    while rest.len() > 0
        invariant
            k <= orig.len(),
            orig.len() <= usize::MAX,
            rest@ == orig.take(orig.len() - k),
            live.wf(),
            live.universe() == n,
            ptr.universe() == n,
            bm.universe() == n,
            ptr@.subset_of(Set::new(|v: Value| (v as nat) < n)),
            bases_within(bm@, ptr@),
            (live@, concat_rev(segs@)) == walk_back(orig, live0, ptr@, bm@, n, k as nat),
        decreases rest.len(),
    {
        let inst = rest.pop().unwrap();
        assert(inst == orig[orig.len() - (k + 1)]);
        assert(rest@ =~= orig.take(orig.len() - (k + 1)));
        let seg = rc_step(inst, live, ptr, bm);
        let ghost segs0 = segs@;
        let ghost sv = seg@;
        segs.push(seg);
        assert(segs@.drop_last() =~= segs0);
        assert(concat_rev(segs@) == sv + concat_rev(segs0));
        k += 1;
    }
    let ghost total = concat_rev(segs@);
    let mut body: Vec<Inst> = Vec::new();
    while segs.len() > 0
        invariant
            body@ + concat_rev(segs@) == total,
        decreases segs.len(),
    {
        let mut seg = segs.pop().unwrap();
        let ghost s0 = seg@;
        body.append(&mut seg);
        assert(body@ + concat_rev(segs@) =~= total);
    }
    assert(body@ =~= total);
    body
}

// ---- predecessors ----

/// Block `j` has an edge into block `i`.
pub open spec fn is_pred(f: Func, j: int, i: int) -> bool {
    &&& 0 <= j < f.blocks.len()
    &&& exists|k: int|
        0 <= k < edges(f.blocks@[j].term).len() && #[trigger] edges(f.blocks@[j].term)[k].0 == f.blocks@[i].id
}

/// The values handed to block `i` as block arguments, along any edge.
pub open spec fn moved_into(f: Func, i: int) -> Set<Value> {
    Set::new(
        |v: Value|
            exists|j: int, k: int|
                0 <= j < f.blocks.len() && 0 <= k < edges(f.blocks@[j].term).len() && edges(
                    f.blocks@[j].term,
                )[k].0 == f.blocks@[i].id && #[trigger] edges(f.blocks@[j].term)[k].1.contains(v),
    )
}

/// Each block's predecessors, by position, and the values handed to it as block arguments.
fn predecessors(f: &Func) -> (r: (Vec<Vec<usize>>, Vec<ValueSet>))
    requires
        f.wf(),
    ensures
        r.0.len() == f.blocks.len(),
        r.1.len() == f.blocks.len(),
        forall|i: int, q: usize|
            0 <= i < f.blocks.len() ==> (#[trigger] r.0@[i]@.contains(q) <==> is_pred(*f, q as int, i)),
        forall|i: int, a: int| 0 <= i < f.blocks.len() && 0 <= a < r.0@[i].len() ==> (#[trigger] r.0@[i]@[a]) < f.blocks.len(),
        forall|i: int| 0 <= i < f.blocks.len() ==> (#[trigger] r.1@[i]).universe() == f.reprs.len(),
        forall|i: int| 0 <= i < f.blocks.len() ==> (#[trigger] r.1@[i])@ == moved_into(*f, i),
{
    let n = f.reprs.len();
    let nb = f.blocks.len();
    let mut preds: Vec<Vec<usize>> = Vec::new();
    let mut moved: Vec<ValueSet> = Vec::new();
    let mut i: usize = 0;
    while i < nb
        invariant
            i <= nb,
            nb == f.blocks.len(),
            n == f.reprs.len(),
            n <= u32::MAX,
            preds.len() == i,
            moved.len() == i,
            forall|a: int| 0 <= a < i ==> (#[trigger] preds@[a])@ == Seq::<usize>::empty(),
            forall|a: int| 0 <= a < i ==> (#[trigger] moved@[a]).universe() == n && moved@[a]@ == Set::<Value>::empty(),
        decreases nb - i,
    {
        preds.push(Vec::new());
        moved.push(ValueSet::new(n));
        i += 1;
    }
    let mut j: usize = 0;
    while j < nb
        invariant
            f.wf(),
            j <= nb,
            nb == f.blocks.len(),
            n == f.reprs.len(),
            preds.len() == nb,
            moved.len() == nb,
            forall|a: int| 0 <= a < nb ==> (#[trigger] moved@[a]).universe() == n,
            forall|a: int, b: int| 0 <= a < nb && 0 <= b < preds@[a].len() ==> (#[trigger] preds@[a]@[b]) < nb,
            forall|a: int, q: usize|
                0 <= a < nb ==> (#[trigger] preds@[a]@.contains(q) <==> (q < j && is_pred(*f, q as int, a))),
            forall|a: int|
                0 <= a < nb ==> (#[trigger] moved@[a])@ == Set::new(
                    |v: Value|
                        exists|q: int, k: int|
                            0 <= q < j && 0 <= k < edges(f.blocks@[q].term).len() && edges(f.blocks@[q].term)[k].0
                                == f.blocks@[a].id && #[trigger] edges(f.blocks@[q].term)[k].1.contains(v),
                ),
        decreases nb - j,
    {
        let ghost t = f.blocks@[j as int].term;
        let es = successor_edges(&f.blocks[j].term);
        let mut k: usize = 0;
        while k < es.len()
            invariant
                f.wf(),
                j < nb,
                nb == f.blocks.len(),
                n == f.reprs.len(),
                t == f.blocks@[j as int].term,
                k <= es.len(),
                es.len() == edges(t).len(),
                forall|k2: int|
                    0 <= k2 < es.len() ==> (#[trigger] es@[k2]).0 == edges(t)[k2].0 && es@[k2].1@ == edges(t)[k2].1,
                preds.len() == nb,
                moved.len() == nb,
                forall|a: int| 0 <= a < nb ==> (#[trigger] moved@[a]).universe() == n,
                forall|a: int, b: int| 0 <= a < nb && 0 <= b < preds@[a].len() ==> (#[trigger] preds@[a]@[b]) < nb,
                forall|a: int, q: usize|
                    0 <= a < nb ==> (#[trigger] preds@[a]@.contains(q) <==> (q < j && is_pred(*f, q as int, a)) || (q
                        == j && exists|k2: int| 0 <= k2 < k && #[trigger] edges(t)[k2].0 == f.blocks@[a].id)),
                forall|a: int|
                    0 <= a < nb ==> (#[trigger] moved@[a])@ == Set::new(
                        |v: Value|
                            (exists|q: int, k2: int|
                                0 <= q < j && 0 <= k2 < edges(f.blocks@[q].term).len() && edges(
                                    f.blocks@[q].term,
                                )[k2].0 == f.blocks@[a].id && #[trigger] edges(f.blocks@[q].term)[k2].1.contains(v))
                                || (exists|k2: int|
                                0 <= k2 < k && edges(t)[k2].0 == f.blocks@[a].id && #[trigger] edges(t)[k2].1.contains(v)),
                    ),
            decreases es.len() - k,
        {
            proof {
                lemma_edge_target(*f, j as int, k as int);
                let j0 = pos_of(*f, edges(t)[k as int].0);
                assert(f.block_ids()[j0] == edges(t)[k as int].0);
            }
            let to = block_index(f, es[k].0);
            proof {
                lemma_pos_of(*f, to as int);
                assert forall|a: int| 0 <= a < es@[k as int].1.len() implies (es@[k as int].1@[a] as nat) < n by {
                    let v = es@[k as int].1@[a];
                    assert(edges(t)[k as int].1.contains(v));
                    lemma_edge_args_consumed(t, k as int, v);
                    lemma_term_consuming_operands(t, v);
                    let x = choose|x: int| 0 <= x < term_operands(t).len() && term_operands(t)[x] == v;
                    assert(f.blocks@[j as int].term == t);
                }
            }
            let ghost old_preds = preds@;
            let ghost old_moved = moved@;
            let mut ps = preds[to].clone();
            assert(ps@ == old_preds[to as int]@);
            ps.push(j);
            preds.set(to, ps);
            let mut m = moved[to].copy();
            insert_each(&mut m, &es[k].1);
            moved.set(to, m);
            proof {
                assert forall|a: int, q: usize|
                    0 <= a < nb implies (#[trigger] preds@[a]@.contains(q) <==> (q < j && is_pred(*f, q as int, a)) || (q
                        == j && exists|k2: int| 0 <= k2 < k + 1 && #[trigger] edges(t)[k2].0 == f.blocks@[a].id)) by {
                    if a == to {
                        if q == j {
                            assert(preds@[a]@[preds@[a].len() - 1] == j);
                            assert(edges(t)[k as int].0 == f.blocks@[a].id);
                        }
                        if preds@[a]@.contains(q) && q != j {
                            let b = choose|b: int| 0 <= b < preds@[a].len() && preds@[a]@[b] == q;
                            assert(old_preds[a]@[b] == q);
                            assert(old_preds[a]@.contains(q));
                        }
                        if q < j && is_pred(*f, q as int, a) || (q == j && exists|k2: int|
                            0 <= k2 < k && #[trigger] edges(t)[k2].0 == f.blocks@[a].id) {
                            assert(old_preds[a]@.contains(q));
                            let b = choose|b: int| 0 <= b < old_preds[a].len() && old_preds[a]@[b] == q;
                            assert(preds@[a]@[b] == q);
                        }
                    } else {
                        assert(preds@[a] == old_preds[a]);
                        if q == j && exists|k2: int| 0 <= k2 < k + 1 && #[trigger] edges(t)[k2].0 == f.blocks@[a].id {
                            let k2 = choose|k2: int| 0 <= k2 < k + 1 && #[trigger] edges(t)[k2].0 == f.blocks@[a].id;
                            if k2 == k {
                                lemma_pos_of(*f, a);
                            }
                        }
                    }
                }
                assert forall|a: int, b: int| 0 <= a < nb && 0 <= b < preds@[a].len() implies (#[trigger] preds@[a]@[b]) < nb by {
                    if a == to && b < old_preds[a].len() {
                        assert(preds@[a]@[b] == old_preds[a]@[b]);
                    }
                }
                assert forall|a: int|
                    0 <= a < nb implies (#[trigger] moved@[a])@ == Set::new(
                        |v: Value|
                            (exists|q: int, k2: int|
                                0 <= q < j && 0 <= k2 < edges(f.blocks@[q].term).len() && edges(
                                    f.blocks@[q].term,
                                )[k2].0 == f.blocks@[a].id && #[trigger] edges(f.blocks@[q].term)[k2].1.contains(v))
                                || (exists|k2: int|
                                0 <= k2 < k + 1 && edges(t)[k2].0 == f.blocks@[a].id && #[trigger] edges(t)[k2].1.contains(v)),
                    ) by {
                    if a != to {
                        assert(moved@[a] == old_moved[a]);
                        assert forall|v: Value| !(0 <= k && edges(t)[k as int].0 == f.blocks@[a].id && edges(t)[k as int].1.contains(v)) by {
                            if edges(t)[k as int].0 == f.blocks@[a].id {
                                lemma_pos_of(*f, a);
                            }
                        }
                    }
                    assert(moved@[a]@ =~= Set::new(
                        |v: Value|
                            (exists|q: int, k2: int|
                                0 <= q < j && 0 <= k2 < edges(f.blocks@[q].term).len() && edges(
                                    f.blocks@[q].term,
                                )[k2].0 == f.blocks@[a].id && #[trigger] edges(f.blocks@[q].term)[k2].1.contains(v))
                                || (exists|k2: int|
                                0 <= k2 < k + 1 && edges(t)[k2].0 == f.blocks@[a].id && #[trigger] edges(t)[k2].1.contains(v)),
                    ));
                }
            }
            k += 1;
        }
        proof {
            assert forall|a: int, q: usize|
                0 <= a < nb implies (#[trigger] preds@[a]@.contains(q) <==> (q < j + 1 && is_pred(*f, q as int, a))) by {
                if q == j {
                    if is_pred(*f, q as int, a) {
                        let k2 = choose|k2: int|
                            0 <= k2 < edges(f.blocks@[q as int].term).len() && #[trigger] edges(f.blocks@[q as int].term)[k2].0
                                == f.blocks@[a].id;
                        assert(edges(t)[k2].0 == f.blocks@[a].id);
                    }
                }
            }
            assert forall|a: int| 0 <= a < nb implies (#[trigger] moved@[a])@ =~= Set::new(
                |v: Value|
                    exists|q: int, k: int|
                        0 <= q < j + 1 && 0 <= k < edges(f.blocks@[q].term).len() && edges(f.blocks@[q].term)[k].0
                            == f.blocks@[a].id && #[trigger] edges(f.blocks@[q].term)[k].1.contains(v),
            ) by {}
        }
        j += 1;
    }
    proof {
        assert forall|a: int| 0 <= a < nb implies (#[trigger] moved@[a])@ =~= moved_into(*f, a) by {}
    }
    (preds, moved)
}

// ---- inserting the counts ----

/// The values that die on entry to block `i`: live out of every predecessor, but not live
/// into the block, not views, not its parameters and not handed to it as arguments.
pub open spec fn dying_set(f: Func, i: int) -> Set<Value> {
    let b = f.blocks@[i];
    Set::new(
        |v: Value|
            (forall|j: int| is_pred(f, j, i) ==> #[trigger] live_out(f)[j].contains(v)) && !live_in(f)[i].contains(v)
                && !bases(f).dom().contains(v) && !b.params@.contains(v) && !moved_into(f, i).contains(v),
    )
}

/// Block `i`'s instructions once counts are inserted: releases of unused parameters, then
/// of the values dying on entry (in increasing order), then the walked body, then a retain
/// of every view the terminator hands on.
pub open spec fn rc_block(f: Func, i: int) -> Seq<Inst> {
    let b = f.blocks@[i];
    let p = counted_values(f);
    let bm = bases(f);
    let n = f.reprs.len() as nat;
    let tu = only_in(term_consumed(b.term), p);
    let start = live_out(f)[i].union(Set::new(|v: Value| tu.contains(v)));
    let walked = walk(b.insts@, start, p, bm, n);
    let unused = only_in(b.params@, p.difference(walked.0));
    let dying = if exists|j: int| is_pred(f, j, i) {
        members_below(dying_set(f, i), n)
    } else {
        Seq::empty()
    };
    unused.map_values(|v: Value| release(v)) + dying.map_values(|v: Value| release(v)) + walked.1 + only_in(
        tu,
        bm.dom(),
    ).map_values(|v: Value| retain(v))
}

/// `after` is `before` with counts inserted into every block.
pub open spec fn rc_inserted(before: Func, after: Func) -> bool {
    &&& after.name == before.name
    &&& after.reprs == before.reprs
    &&& after.ret == before.ret
    &&& after.entry == before.entry
    &&& after.blocks.len() == before.blocks.len()
    &&& forall|i: int|
        0 <= i < before.blocks.len() ==> {
            let (a, b) = (#[trigger] after.blocks@[i], before.blocks@[i]);
            &&& a.id == b.id
            &&& a.params == b.params
            &&& a.term == b.term
            &&& a.insts@ == if counted_values(before) == Set::<Value>::empty() {
                b.insts@
            } else {
                rc_block(before, i)
            }
        }
}

/// Filtering an increasing listing keeps the listing of what passes.
proof fn lemma_only_in_members(s: Set<Value>, keep: Set<Value>, k: nat)
    ensures
        only_in(members_below(s, k), keep) == members_below(s.intersect(keep), k),
    decreases k,
{
    if k > 0 {
        lemma_only_in_members(s, keep, (k - 1) as nat);
        let m = members_below(s, (k - 1) as nat);
        if s.contains((k - 1) as Value) {
            assert(m.push((k - 1) as Value).drop_last() == m);
        }
    }
}

/// Whether `vs` holds `v`.
fn contains_value(vs: &Vec<Value>, v: Value) -> (b: bool)
    ensures
        b == vs@.contains(v),
{
    let mut i: usize = 0;
    while i < vs.len()
        invariant
            i <= vs.len(),
            forall|j: int| 0 <= j < i ==> vs@[j] != v,
        decreases vs.len() - i,
    {
        if vs[i] == v {
            return true;
        }
        i += 1;
    }
    false
}

/// Whether every set `outs` holds at the positions `ps` holds `v`.
fn all_live(outs: &Vec<ValueSet>, ps: &Vec<usize>, v: Value) -> (b: bool)
    requires
        forall|a: int| 0 <= a < ps.len() ==> (#[trigger] ps@[a]) < outs.len(),
    ensures
        b == forall|a: int| 0 <= a < ps.len() ==> (#[trigger] outs@[ps@[a] as int])@.contains(v),
{
    let mut i: usize = 0;
    while i < ps.len()
        invariant
            i <= ps.len(),
            forall|a: int| 0 <= a < ps.len() ==> (#[trigger] ps@[a]) < outs.len(),
            forall|a: int| 0 <= a < i ==> (#[trigger] outs@[ps@[a] as int])@.contains(v),
        decreases ps.len() - i,
    {
        if !outs[ps[i]].contains(v) {
            return false;
        }
        i += 1;
    }
    true
}

/// Block `i`'s instructions with counts inserted, from the analyses of its function.
#[verifier::rlimit(50)]
fn rc_block_insts(
    insts: Vec<Inst>,
    params: &Vec<Value>,
    term: &Term,
    i: usize,
    ptr: &ValueSet,
    bm: &BaseMap,
    ins: &Vec<ValueSet>,
    outs: &Vec<ValueSet>,
    preds: &Vec<Vec<usize>>,
    moved: &Vec<ValueSet>,
    Ghost(f): Ghost<Func>,
) -> (r: Vec<Inst>)
    requires
        f.wf(),
        i < f.blocks.len(),
        insts@ == f.blocks@[i as int].insts@,
        params@ == f.blocks@[i as int].params@,
        *term == f.blocks@[i as int].term,
        ptr.universe() == f.reprs.len(),
        ptr@ == counted_values(f),
        bm.universe() == f.reprs.len(),
        bm@ == bases(f),
        bases_within(bm@, counted_values(f)),
        ins.len() == f.blocks.len(),
        outs.len() == f.blocks.len(),
        forall|j: int| 0 <= j < ins.len() ==> (#[trigger] ins@[j]).universe() == f.reprs.len(),
        forall|j: int| 0 <= j < outs.len() ==> (#[trigger] outs@[j]).universe() == f.reprs.len(),
        views(ins@) == live_in(f),
        views(outs@) == live_out(f),
        preds.len() == f.blocks.len(),
        moved.len() == f.blocks.len(),
        forall|j: int, q: usize| 0 <= j < f.blocks.len() ==> (#[trigger] preds@[j]@.contains(q) <==> is_pred(f, q as int, j)),
        forall|j: int, a: int| 0 <= j < f.blocks.len() && 0 <= a < preds@[j].len() ==> (#[trigger] preds@[j]@[a]) < f.blocks.len(),
        forall|j: int| 0 <= j < f.blocks.len() ==> (#[trigger] moved@[j]).universe() == f.reprs.len(),
        forall|j: int| 0 <= j < f.blocks.len() ==> (#[trigger] moved@[j])@ == moved_into(f, j),
    ensures
        r@ == rc_block(f, i as int),
{
    let ghost p = counted_values(f);
    let ghost n = f.reprs.len() as nat;
    let ghost b = f.blocks@[i as int];
    assert(p.subset_of(Set::new(|v: Value| (v as nat) < n)));
    let tc = term_consuming(term);
    let tu = keep_counted(&tc, ptr);
    proof {
        lemma_only_in(term_consumed(*term), p);
        assert forall|a: int| 0 <= a < tu.len() implies (tu@[a] as nat) < ptr.universe() by {
            assert(tu@.contains(tu@[a]));
        }
    }
    let mut live = outs[i].copy();
    assert(live@ == live_out(f)[i as int]);
    insert_each(&mut live, &tu);
    let ghost start = live@;
    assert(start =~= live_out(f)[i as int].union(Set::new(|v: Value| tu@.contains(v))));
    let mut body = rc_walk(insts, &mut live, ptr, bm);
    let ghost end = live@;
    // the block's parameters that nothing used
    let mut head: Vec<Inst> = Vec::new();
    let mut a: usize = 0;
    while a < params.len()
        invariant
            a <= params.len(),
            ptr@ == p,
            live@ == end,
            head@ == only_in(params@.take(a as int), p.difference(end)).map_values(|v: Value| release(v)),
        decreases params.len() - a,
    {
        let v = params[a];
        assert(params@.take(a + 1).drop_last() == params@.take(a as int));
        if ptr.contains(v) && !live.contains(v) {
            head.push(Inst { result: None, op: Op::Release(v) });
        }
        assert(head@ =~= only_in(params@.take(a + 1), p.difference(end)).map_values(|v: Value| release(v)));
        a += 1;
    }
    assert(params@.take(params.len() as int) == params@);
    let ghost h1 = head@;
    // the values that die on entry
    let ghost keep = Set::new(
        |v: Value|
            !ins@[i as int]@.contains(v) && !bm@.dom().contains(v) && !params@.contains(v) && !moved@[i as int]@.contains(v)
                && forall|x: int| 0 <= x < preds@[i as int].len() ==> (#[trigger] outs@[preds@[i as int]@[x] as int])@.contains(v),
    );
    if preds[i].len() > 0 {
        let first = preds[i][0];
        let cands = outs[first].members();
        let mut a: usize = 0;
        while a < cands.len()
            invariant
                a <= cands.len(),
                i < ins.len(),
                i < preds.len(),
                i < moved.len(),
                forall|x: int| 0 <= x < preds@[i as int].len() ==> (#[trigger] preds@[i as int]@[x]) < outs.len(),
                keep == Set::new(
                    |v: Value|
                        !ins@[i as int]@.contains(v) && !bm@.dom().contains(v) && !params@.contains(v)
                            && !moved@[i as int]@.contains(v) && forall|x: int|
                            0 <= x < preds@[i as int].len() ==> (#[trigger] outs@[preds@[i as int]@[x] as int])@.contains(v),
                ),
                head@ == h1 + only_in(cands@.take(a as int), keep).map_values(|v: Value| release(v)),
            decreases cands.len() - a,
        {
            let v = cands[a];
            assert(cands@.take(a + 1).drop_last() == cands@.take(a as int));
            if !ins[i].contains(v) && !bm.contains_key(v) && !contains_value(params, v) && !moved[i].contains(v)
                && all_live(outs, &preds[i], v) {
                head.push(Inst { result: None, op: Op::Release(v) });
            }
            assert(head@ =~= h1 + only_in(cands@.take(a + 1), keep).map_values(|v: Value| release(v)));
            a += 1;
        }
        assert(cands@.take(cands.len() as int) == cands@);
        proof {
            let lo = live_out(f);
            assert(is_pred(f, first as int, i as int)) by {
                assert(preds@[i as int]@.contains(first));
            }
            assert(outs@[first as int]@ == lo[first as int]);
            lemma_only_in_members(lo[first as int], keep, n);
            assert forall|v: Value| lo[first as int].intersect(keep).contains(v) <==> dying_set(f, i as int).contains(v) by {
                if lo[first as int].intersect(keep).contains(v) {
                    assert forall|j: int| is_pred(f, j, i as int) implies #[trigger] lo[j].contains(v) by {
                        let q = j as usize;
                        assert(preds@[i as int]@.contains(q));
                        let x = choose|x: int| 0 <= x < preds@[i as int].len() && preds@[i as int]@[x] == q;
                        assert(outs@[preds@[i as int]@[x] as int]@.contains(v));
                        assert(outs@[j]@ == lo[j]);
                    }
                }
                if dying_set(f, i as int).contains(v) {
                    assert(lo[first as int].contains(v));
                    assert forall|x: int| 0 <= x < preds@[i as int].len() implies (#[trigger] outs@[preds@[i as int]@[x] as int])@.contains(v) by {
                        let q = preds@[i as int]@[x];
                        assert(preds@[i as int]@.contains(q));
                        assert(is_pred(f, q as int, i as int));
                        assert(outs@[q as int]@ == lo[q as int]);
                    }
                    assert(ins@[i as int]@ == live_in(f)[i as int]);
                    assert(keep.contains(v));
                }
            }
            assert(lo[first as int].intersect(keep) =~= dying_set(f, i as int));
            assert(exists|j: int| is_pred(f, j, i as int));
        }
    } else {
        proof {
            assert forall|j: int| !is_pred(f, j, i as int) by {
                if is_pred(f, j, i as int) {
                    assert(preds@[i as int]@.contains(j as usize));
                }
            }
        }
    }
    let ghost h2 = head@;
    head.append(&mut body);
    let ghost h3 = head@;
    // views the terminator hands on need a reference of their own
    let mut a: usize = 0;
    while a < tu.len()
        invariant
            a <= tu.len(),
            head@ == h3 + only_in(tu@.take(a as int), bm@.dom()).map_values(|v: Value| retain(v)),
        decreases tu.len() - a,
    {
        let v = tu[a];
        assert(tu@.take(a + 1).drop_last() == tu@.take(a as int));
        if bm.contains_key(v) {
            head.push(Inst { result: None, op: Op::Retain(v) });
        }
        assert(head@ =~= h3 + only_in(tu@.take(a + 1), bm@.dom()).map_values(|v: Value| retain(v)));
        a += 1;
    }
    assert(tu@.take(tu.len() as int) == tu@);
    assert(head@ =~= rc_block(f, i as int));
    head
}

/// Insert counts into one function.
fn insert_fn(f: &mut Func)
    requires
        old(f).wf(),
    ensures
        rc_inserted(*old(f), *final(f)),
{
    let ptr = counted_set(f);
    if ptr.is_empty() {
        return;
    }
    let bm = base_of(f, &ptr);
    let (ins, outs) = liveness(f, &ptr, &bm);
    let (preds, moved) = predecessors(f);
    let ghost orig = *f;
    let mut old_blocks: Vec<Block> = Vec::new();
    std::mem::swap(&mut f.blocks, &mut old_blocks);
    assert(old_blocks@ == orig.blocks@);
    let mut i: usize = 0;
    while old_blocks.len() > 0
        invariant
            orig.wf(),
            i + old_blocks.len() == orig.blocks.len(),
            old_blocks@ == orig.blocks@.skip(i as int),
            f.name == orig.name,
            f.reprs == orig.reprs,
            f.ret == orig.ret,
            f.entry == orig.entry,
            f.blocks.len() == i,
            counted_values(orig) != Set::<Value>::empty(),
            forall|a: int|
                0 <= a < i ==> {
                    let (x, y) = (#[trigger] f.blocks@[a], orig.blocks@[a]);
                    &&& x.id == y.id
                    &&& x.params == y.params
                    &&& x.term == y.term
                    &&& x.insts@ == rc_block(orig, a)
                },
            ptr.universe() == orig.reprs.len(),
            ptr@ == counted_values(orig),
            bm.universe() == orig.reprs.len(),
            bm@ == bases(orig),
            bases_within(bm@, counted_values(orig)),
            ins.len() == orig.blocks.len(),
            outs.len() == orig.blocks.len(),
            forall|j: int| 0 <= j < ins.len() ==> (#[trigger] ins@[j]).universe() == orig.reprs.len(),
            forall|j: int| 0 <= j < outs.len() ==> (#[trigger] outs@[j]).universe() == orig.reprs.len(),
            views(ins@) == live_in(orig),
            views(outs@) == live_out(orig),
            preds.len() == orig.blocks.len(),
            moved.len() == orig.blocks.len(),
            forall|j: int, q: usize|
                0 <= j < orig.blocks.len() ==> (#[trigger] preds@[j]@.contains(q) <==> is_pred(orig, q as int, j)),
            forall|j: int, a: int|
                0 <= j < orig.blocks.len() && 0 <= a < preds@[j].len() ==> (#[trigger] preds@[j]@[a]) < orig.blocks.len(),
            forall|j: int| 0 <= j < orig.blocks.len() ==> (#[trigger] moved@[j]).universe() == orig.reprs.len(),
            forall|j: int| 0 <= j < orig.blocks.len() ==> (#[trigger] moved@[j])@ == moved_into(orig, j),
        decreases old_blocks.len(),
    {
        let b = old_blocks.remove(0);
        assert(b == orig.blocks@[i as int]);
        assert(old_blocks@ =~= orig.blocks@.skip(i + 1));
        let Block { id, params, insts, term } = b;
        let new_insts = rc_block_insts(insts, &params, &term, i, &ptr, &bm, &ins, &outs, &preds, &moved, Ghost(orig));
        f.blocks.push(Block { id, params, insts: new_insts, term });
        i += 1;
    }
}

/// Insert retains and releases into every function of the program.
pub fn insert(program: &mut Program)
    requires
        old(program).wf(),
    ensures
        final(program).wf(),
        final(program).pure_natives == old(program).pure_natives,
        final(program).funcs.len() == old(program).funcs.len(),
        forall|i: int|
            0 <= i < old(program).funcs.len() ==> rc_inserted(old(program).funcs@[i], #[trigger] final(program).funcs@[i]),
{
    let ghost orig = program.funcs@;
    let mut old_funcs: Vec<Func> = Vec::new();
    std::mem::swap(&mut program.funcs, &mut old_funcs);
    assert(old_funcs@ == orig);
    assert(orig.len() == old_funcs.len());
    let mut i: usize = 0;
    while old_funcs.len() > 0
        invariant
            i + old_funcs.len() == orig.len(),
            orig.len() <= usize::MAX,
            old_funcs@ == orig.skip(i as int),
            forall|a: int| 0 <= a < orig.len() ==> (#[trigger] orig[a]).wf(),
            program.pure_natives == old(program).pure_natives,
            program.funcs.len() == i,
            forall|a: int| 0 <= a < i ==> rc_inserted(orig[a], #[trigger] program.funcs@[a]),
            forall|a: int| 0 <= a < i ==> (#[trigger] program.funcs@[a]).wf(),
        decreases old_funcs.len(),
    {
        let mut f = old_funcs.remove(0);
        assert(f == orig[i as int]);
        assert(old_funcs@ =~= orig.skip(i + 1));
        insert_fn(&mut f);
        proof {
            lemma_rc_keeps_wf(orig[i as int], f);
        }
        program.funcs.push(f);
        i += 1;
    }
}

// ---- what insertion keeps ----

/// A `Retain` or `Release` of a counted value, defining nothing.
pub open spec fn rc_of(inst: Inst, p: Set<Value>) -> bool {
    &&& inst.result is None
    &&& match inst.op {
        Op::Retain(v) => p.contains(v),
        Op::Release(v) => p.contains(v),
        _ => false,
    }
}

/// The base map relates counted values only.
pub proof fn lemma_bases_within(f: Func)
    ensures
        bases_within(bases(f), counted_values(f)),
{
    lemma_blocks_bases_within(f.blocks@, counted_values(f));
}

proof fn lemma_blocks_bases_within(bs: Seq<Block>, p: Set<Value>)
    ensures
        bases_within(blocks_bases(bs, p), p),
    decreases bs.len(),
{
    if bs.len() > 0 {
        lemma_blocks_bases_within(bs.drop_last(), p);
        lemma_insts_bases_within(bs.last().insts@, p, blocks_bases(bs.drop_last(), p));
    }
}

proof fn lemma_insts_bases_within(is: Seq<Inst>, p: Set<Value>, m: Map<Value, Value>)
    requires
        bases_within(m, p),
    ensures
        bases_within(insts_bases(is, p, m), p),
    decreases is.len(),
{
    if is.len() > 0 {
        lemma_insts_bases_within(is.drop_last(), p, m);
    }
}

/// What the passes over operands collect comes from the operands or the accumulator.
proof fn lemma_pass_values(ws: Seq<Value>, live: Set<Value>, acc: Seq<Value>, bm: Map<Value, Value>, n: nat)
    ensures
        forall|v: Value| #[trigger] borrow_pass(ws, live, acc, bm, n).1.contains(v) ==> acc.contains(v) || ws.contains(v),
        forall|v: Value| #[trigger] consume_pass(ws, live, acc, bm, n).1.contains(v) ==> acc.contains(v) || ws.contains(v),
    decreases ws.len(),
{
    if ws.len() > 0 {
        lemma_pass_values(ws.drop_last(), live, acc, bm, n);
        let b = borrow_pass(ws.drop_last(), live, acc, bm, n);
        let c = consume_pass(ws.drop_last(), live, acc, bm, n);
        assert forall|v: Value| #[trigger] ws.drop_last().contains(v) implies ws.contains(v) by {
            let j = choose|j: int| 0 <= j < ws.drop_last().len() && ws.drop_last()[j] == v;
            assert(ws[j] == v);
        }
        assert(ws[ws.len() - 1] == ws.last());
        assert forall|v: Value| #[trigger] b.1.push(ws.last()).contains(v) implies b.1.contains(v) || v == ws.last() by {
            let j = choose|j: int| 0 <= j < b.1.push(ws.last()).len() && b.1.push(ws.last())[j] == v;
            if j < b.1.len() {
                assert(b.1[j] == v);
            }
        }
        assert forall|v: Value| #[trigger] c.1.push(ws.last()).contains(v) implies c.1.contains(v) || v == ws.last() by {
            let j = choose|j: int| 0 <= j < c.1.push(ws.last()).len() && c.1.push(ws.last())[j] == v;
            if j < c.1.len() {
                assert(c.1[j] == v);
            }
        }
    }
}

/// Each instruction a step emits is the instruction itself or a count of a counted value.
proof fn lemma_step_parts(inst: Inst, live: Set<Value>, p: Set<Value>, bm: Map<Value, Value>, n: nat)
    ensures
        forall|x: Inst| #[trigger] step(inst, live, p, bm, n).1.contains(x) ==> x == inst || rc_of(x, p),
{
    let dead_result = match inst.result {
        Some(v) => p.contains(v) && !live.contains(v) && !bm.dom().contains(v),
        None => false,
    };
    let rel0: Seq<Value> = if dead_result {
        seq![inst.result.unwrap()]
    } else {
        Seq::empty()
    };
    let live1 = match inst.result {
        Some(v) => live.remove(v),
        None => live,
    };
    let bs = only_in(borrowing_raw(inst.op), p);
    let cs = only_in(consuming_raw(inst.op), p);
    let borrowed = borrow_pass(bs, live1, rel0, bm, n);
    let consumed = consume_pass(cs, borrowed.0, Seq::empty(), bm, n);
    lemma_pass_values(bs, live1, rel0, bm, n);
    lemma_pass_values(cs, borrowed.0, Seq::empty(), bm, n);
    lemma_only_in(borrowing_raw(inst.op), p);
    lemma_only_in(consuming_raw(inst.op), p);
    let a = backwards(consumed.1, |v: Value| retain(v));
    let c = backwards(borrowed.1, |v: Value| release(v));
    let whole = a + seq![inst] + c;
    assert(whole == step(inst, live, p, bm, n).1);
    assert forall|x: Inst| #[trigger] whole.contains(x) implies x == inst || rc_of(x, p) by {
        let j = choose|j: int| 0 <= j < whole.len() && whole[j] == x;
        if j < a.len() {
            let v = consumed.1[consumed.1.len() - 1 - j];
            assert(consumed.1.contains(v));
            assert(!Seq::<Value>::empty().contains(v));
            assert(x == retain(v));
        } else if j > a.len() {
            let k = j - a.len() - 1;
            let v = borrowed.1[borrowed.1.len() - 1 - k];
            assert(borrowed.1.contains(v));
            if rel0.contains(v) {
                assert(rel0[0] == v);
            }
            assert(x == release(v));
        }
    }
}

/// Each instruction the walk emits is one of the block's or a count of a counted value.
proof fn lemma_walk_parts(is: Seq<Inst>, live: Set<Value>, p: Set<Value>, bm: Map<Value, Value>, n: nat, k: nat)
    ensures
        forall|x: Inst| #[trigger] walk_back(is, live, p, bm, n, k).1.contains(x) ==> is.contains(x) || rc_of(x, p),
    decreases k,
{
    if k > 0 && k <= is.len() {
        lemma_walk_parts(is, live, p, bm, n, (k - 1) as nat);
        let prev = walk_back(is, live, p, bm, n, (k - 1) as nat);
        let inst = is[is.len() - k];
        lemma_step_parts(inst, prev.0, p, bm, n);
        let seg = step(inst, prev.0, p, bm, n).1;
        assert forall|x: Inst| #[trigger] (seg + prev.1).contains(x) implies is.contains(x) || rc_of(x, p) by {
            let j = choose|j: int| 0 <= j < (seg + prev.1).len() && (seg + prev.1)[j] == x;
            if j < seg.len() {
                assert(seg[j] == x);
                assert(seg.contains(x));
            } else {
                assert(prev.1[j - seg.len()] == x);
                assert(prev.1.contains(x));
            }
        }
    }
}

/// The least solution lies within the counted values, and so do the live-out sets.
pub proof fn lemma_live_counted(f: Func)
    requires
        f.wf(),
    ensures
        forall|i: int| 0 <= i < f.blocks.len() ==> (#[trigger] live_in(f)[i]).subset_of(counted_values(f)),
        forall|i: int| 0 <= i < f.blocks.len() ==> (#[trigger] live_out(f)[i]).subset_of(counted_values(f)),
{
    let p = counted_values(f);
    let bm = bases(f);
    lemma_bases_within(f);
    let q = Seq::new(f.blocks.len() as nat, |i: int| p);
    assert(closed_under(p, bm));
    assert forall|i: int| 0 <= i < q.len() implies #[trigger] live_step(f, q, i).subset_of(q[i]) by {
        let b = f.blocks@[i];
        let t = b.term;
        assert forall|v: Value| raw_out(f, q, i).contains(v) implies p.contains(v) by {
            if exists|k: int| 0 <= k < edges(t).len() && #[trigger] q[pos_of(f, edges(t)[k].0)].contains(v) {
                let k = choose|k: int| 0 <= k < edges(t).len() && #[trigger] q[pos_of(f, edges(t)[k].0)].contains(v);
                lemma_edge_target(f, i, k);
            }
        }
        lemma_only_in(term_consumed(t), p);
        assert forall|v: Value| uses_of(b, p).contains(v) implies p.contains(v) by {
            let k = choose|k: int|
                0 <= k < b.insts.len() && (only_in(consuming_raw(#[trigger] b.insts@[k].op), p).contains(v)
                    || only_in(borrowing_raw(b.insts@[k].op), p).contains(v));
            lemma_only_in(consuming_raw(b.insts@[k].op), p);
            lemma_only_in(borrowing_raw(b.insts@[k].op), p);
        }
        let pre = raw_out(f, q, i).difference(defs_of(b)).union(uses_of(b, p).difference(defs_of(b)));
        assert(pre.subset_of(p));
        lemma_closure_least(pre, p, bm);
    }
    assert(post_fixpoint(f, q));
    let l = live_in(f);
    assert(least_fixpoint(f, l)) by {
        lemma_fixpoint_exists(f);
    }
    assert(below(l, q));
    assert forall|i: int| 0 <= i < f.blocks.len() implies (#[trigger] live_out(f)[i]).subset_of(p) by {
        lemma_step_monotone(f, l, q, i);
        let t = f.blocks@[i].term;
        assert forall|v: Value| raw_out(f, q, i).contains(v) implies p.contains(v) by {
            if exists|k: int| 0 <= k < edges(t).len() && #[trigger] q[pos_of(f, edges(t)[k].0)].contains(v) {
                let k = choose|k: int| 0 <= k < edges(t).len() && #[trigger] q[pos_of(f, edges(t)[k].0)].contains(v);
                lemma_edge_target(f, i, k);
            }
        }
        lemma_only_in(term_consumed(t), p);
        lemma_closure_least(raw_out(f, q, i), p, bm);
    }
}

/// The equations have a least solution: the meet of every post-fixpoint.
pub proof fn lemma_fixpoint_exists(f: Func)
    requires
        f.cfg_ok(),
    ensures
        least_fixpoint(f, live_in(f)),
{
    let nb = f.blocks.len() as nat;
    let ls = Seq::new(
        nb,
        |i: int| Set::new(|v: Value| forall|q: Seq<Set<Value>>| post_fixpoint(f, q) ==> #[trigger] q[i].contains(v)),
    );
    assert forall|q: Seq<Set<Value>>| post_fixpoint(f, q) implies below(ls, q) by {}
    assert forall|i: int| 0 <= i < ls.len() implies #[trigger] live_step(f, ls, i).subset_of(ls[i]) by {
        assert forall|v: Value| live_step(f, ls, i).contains(v) implies ls[i].contains(v) by {
            assert forall|q: Seq<Set<Value>>| post_fixpoint(f, q) implies #[trigger] q[i].contains(v) by {
                assert(below(ls, q));
                lemma_step_monotone(f, ls, q, i);
                assert(live_step(f, q, i).subset_of(q[i]));
            }
        }
    }
    let fs = Seq::new(nb, |i: int| live_step(f, ls, i));
    assert(below(fs, ls));
    assert forall|i: int| 0 <= i < fs.len() implies #[trigger] live_step(f, fs, i).subset_of(fs[i]) by {
        lemma_step_monotone(f, fs, ls, i);
    }
    assert(post_fixpoint(f, fs));
    assert(below(ls, fs));
    assert forall|i: int| 0 <= i < ls.len() implies #[trigger] ls[i] == live_step(f, ls, i) by {
        assert(ls[i] =~= live_step(f, ls, i));
    }
    assert(least_fixpoint(f, ls));
}

/// Each instruction of a rewritten block is one of the block's own or a count of a counted
/// value.
pub proof fn lemma_block_parts(f: Func, i: int)
    requires
        f.wf(),
        0 <= i < f.blocks.len(),
    ensures
        forall|x: Inst| #[trigger] rc_block(f, i).contains(x) ==> f.blocks@[i].insts@.contains(x) || rc_of(
            x,
            counted_values(f),
        ),
{
    let b = f.blocks@[i];
    let p = counted_values(f);
    let bm = bases(f);
    let n = f.reprs.len() as nat;
    let tu = only_in(term_consumed(b.term), p);
    let start = live_out(f)[i].union(Set::new(|v: Value| tu.contains(v)));
    let walked = walk(b.insts@, start, p, bm, n);
    let unused = only_in(b.params@, p.difference(walked.0));
    let dying = if exists|j: int| is_pred(f, j, i) {
        members_below(dying_set(f, i), n)
    } else {
        Seq::empty()
    };
    let views_out = only_in(tu, bm.dom());
    let s1 = unused.map_values(|v: Value| release(v));
    let s2 = dying.map_values(|v: Value| release(v));
    let s4 = views_out.map_values(|v: Value| retain(v));
    assert(rc_block(f, i) == s1 + s2 + walked.1 + s4);
    lemma_only_in(b.params@, p.difference(walked.0));
    lemma_only_in(term_consumed(b.term), p);
    lemma_only_in(tu, bm.dom());
    lemma_walk_parts(b.insts@, start, p, bm, n, b.insts.len() as nat);
    lemma_live_counted(f);
    super::vset::lemma_members_below(dying_set(f, i), n);
    assert forall|x: Inst| #[trigger] rc_block(f, i).contains(x) implies b.insts@.contains(x) || rc_of(x, p) by {
        let whole = s1 + s2 + walked.1 + s4;
        let j = choose|j: int| 0 <= j < whole.len() && whole[j] == x;
        if j < s1.len() {
            assert(unused.contains(unused[j]));
        } else if j < s1.len() + s2.len() {
            let v = dying[j - s1.len()];
            assert(dying.contains(v));
            let jp = choose|jp: int| is_pred(f, jp, i);
            assert(live_out(f)[jp].contains(v));
        } else if j < s1.len() + s2.len() + walked.1.len() {
            assert(walked.1[j - s1.len() - s2.len()] == x);
            assert(walked.1.contains(x));
        } else {
            let v = views_out[j - s1.len() - s2.len() - walked.1.len()];
            assert(views_out.contains(v));
            assert(tu.contains(v));
        }
    }
}

/// Inserting counts keeps a function well formed.
pub proof fn lemma_rc_keeps_wf(before: Func, after: Func)
    requires
        before.wf(),
        rc_inserted(before, after),
    ensures
        after.wf(),
{
    let p = counted_values(before);
    assert(after.block_ids() =~= before.block_ids());
    assert forall|i: int| 0 <= i < after.blocks.len() implies {
        let b = #[trigger] after.blocks@[i];
        forall|k: int|
            0 <= k < b.insts.len() ==> {
                let inst = #[trigger] b.insts@[k];
                &&& forall|j: int| 0 <= j < op_operands(inst.op).len() ==> op_operands(inst.op)[j] < after.reprs.len()
                &&& (inst.result matches Some(v) ==> v < after.reprs.len())
            }
    } by {
        let b = after.blocks@[i];
        let ob = before.blocks@[i];
        if p != Set::<Value>::empty() {
            lemma_block_parts(before, i);
        }
        assert forall|k: int| 0 <= k < b.insts.len() implies {
            let inst = #[trigger] b.insts@[k];
            &&& forall|j: int| 0 <= j < op_operands(inst.op).len() ==> op_operands(inst.op)[j] < after.reprs.len()
            &&& (inst.result matches Some(v) ==> v < after.reprs.len())
        } by {
            let inst = b.insts@[k];
            assert(b.insts@.contains(inst));
            if ob.insts@.contains(inst) {
                let k2 = choose|k2: int| 0 <= k2 < ob.insts.len() && ob.insts@[k2] == inst;
                assert(ob.insts@[k2] == inst);
            }
        }
    }
    assert(after.values_in_range());
    assert forall|i: int, j: int|
        0 <= i < after.blocks.len() && 0 <= j < term_successors(after.blocks@[i].term).len() implies after.has_block(
            #[trigger] term_successors(after.blocks@[i].term)[j],
        ) by {
        assert(term_successors(after.blocks@[i].term) == term_successors(before.blocks@[i].term));
    }
}

/// The count operations of an instruction list, erased.
pub open spec fn unrc(s: Seq<Inst>) -> Seq<Inst>
    decreases s.len(),
{
    if s.len() == 0 {
        s
    } else {
        let r = unrc(s.drop_last());
        if s.last().op is Retain || s.last().op is Release {
            r
        } else {
            r.push(s.last())
        }
    }
}

proof fn lemma_unrc_add(a: Seq<Inst>, b: Seq<Inst>)
    ensures
        unrc(a + b) == unrc(a) + unrc(b),
    decreases b.len(),
{
    if b.len() > 0 {
        lemma_unrc_add(a, b.drop_last());
        assert((a + b).drop_last() =~= a + b.drop_last());
        assert((a + b).last() == b.last());
    } else {
        assert(a + b =~= a);
    }
}

proof fn lemma_unrc_counts(vs: Seq<Value>, mk: spec_fn(Value) -> Inst)
    requires
        forall|v: Value| (#[trigger] mk(v)).op is Retain || mk(v).op is Release,
    ensures
        unrc(backwards(vs, mk)) == Seq::<Inst>::empty(),
        unrc(vs.map_values(mk)) == Seq::<Inst>::empty(),
    decreases vs.len(),
{
    if vs.len() > 0 {
        let rest = vs.drop_first();
        lemma_unrc_counts(rest, mk);
        assert(backwards(vs, mk) =~= backwards(rest, mk).push(mk(vs[0])));
        assert(backwards(vs, mk).drop_last() =~= backwards(rest, mk));
        let m = vs.map_values(mk);
        lemma_unrc_counts(vs.drop_last(), mk);
        assert(m.drop_last() =~= vs.drop_last().map_values(mk));
        assert(m.last() == mk(vs.last()));
    } else {
        assert(backwards(vs, mk) =~= Seq::<Inst>::empty());
        assert(vs.map_values(mk) =~= Seq::<Inst>::empty());
    }
}

proof fn lemma_unrc_walk(is: Seq<Inst>, live: Set<Value>, p: Set<Value>, bm: Map<Value, Value>, n: nat, k: nat)
    requires
        k <= is.len(),
    ensures
        unrc(walk_back(is, live, p, bm, n, k).1) == unrc(is.skip(is.len() - k)),
    decreases k,
{
    if k == 0 {
        assert(is.skip(is.len() as int) =~= Seq::<Inst>::empty());
    } else {
        lemma_unrc_walk(is, live, p, bm, n, (k - 1) as nat);
        let prev = walk_back(is, live, p, bm, n, (k - 1) as nat);
        let inst = is[is.len() - k];
        let st = step(inst, prev.0, p, bm, n);
        let dead_result = match inst.result {
            Some(v) => p.contains(v) && !prev.0.contains(v) && !bm.dom().contains(v),
            None => false,
        };
        let rel0: Seq<Value> = if dead_result {
            seq![inst.result.unwrap()]
        } else {
            Seq::empty()
        };
        let live1 = match inst.result {
            Some(v) => prev.0.remove(v),
            None => prev.0,
        };
        let borrowed = borrow_pass(only_in(borrowing_raw(inst.op), p), live1, rel0, bm, n);
        let consumed = consume_pass(only_in(consuming_raw(inst.op), p), borrowed.0, Seq::empty(), bm, n);
        let a = backwards(consumed.1, |v: Value| retain(v));
        let c = backwards(borrowed.1, |v: Value| release(v));
        lemma_unrc_counts(consumed.1, |v: Value| retain(v));
        lemma_unrc_counts(borrowed.1, |v: Value| release(v));
        lemma_unrc_add(a, seq![inst]);
        lemma_unrc_add(a + seq![inst], c);
        lemma_unrc_add(st.1, prev.1);
        assert(seq![inst].drop_last() =~= Seq::<Inst>::empty());
        let tail = is.skip(is.len() - (k - 1));
        assert(is.skip(is.len() - k) =~= seq![inst] + tail);
        lemma_unrc_add(seq![inst], tail);
    }
}

/// Erasing the count operations from a block with counts inserted gives back the block's
/// own instructions with theirs erased: the pass adds retains and releases and nothing else,
/// and keeps the order of everything else.
pub proof fn lemma_rc_only_adds_counts(f: Func, i: int)
    requires
        0 <= i < f.blocks.len(),
    ensures
        unrc(rc_block(f, i)) == unrc(f.blocks@[i].insts@),
{
    let b = f.blocks@[i];
    let p = counted_values(f);
    let bm = bases(f);
    let n = f.reprs.len() as nat;
    let tu = only_in(term_consumed(b.term), p);
    let start = live_out(f)[i].union(Set::new(|v: Value| tu.contains(v)));
    let walked = walk(b.insts@, start, p, bm, n);
    let unused = only_in(b.params@, p.difference(walked.0));
    let dying = if exists|j: int| is_pred(f, j, i) {
        members_below(dying_set(f, i), n)
    } else {
        Seq::empty()
    };
    let views_out = only_in(tu, bm.dom());
    let s1 = unused.map_values(|v: Value| release(v));
    let s2 = dying.map_values(|v: Value| release(v));
    let s4 = views_out.map_values(|v: Value| retain(v));
    lemma_unrc_counts(unused, |v: Value| release(v));
    lemma_unrc_counts(dying, |v: Value| release(v));
    lemma_unrc_counts(views_out, |v: Value| retain(v));
    lemma_unrc_walk(b.insts@, start, p, bm, n, b.insts.len() as nat);
    assert(b.insts@.skip(0) =~= b.insts@);
    lemma_unrc_add(s1, s2);
    lemma_unrc_add(s1 + s2, walked.1);
    lemma_unrc_add(s1 + s2 + walked.1, s4);
    assert(unrc(s1) + unrc(s2) =~= Seq::<Inst>::empty());
    assert(rc_block(f, i) == s1 + s2 + walked.1 + s4);
}

/// The instructions of `s` that `m` does not mark, in order.
pub open spec fn unmarked(s: Seq<Inst>, m: Seq<bool>) -> Seq<Inst>
    decreases s.len(),
{
    if s.len() == 0 || m.len() != s.len() {
        Seq::empty()
    } else {
        let r = unmarked(s.drop_last(), m.drop_last());
        if m.last() {
            r
        } else {
            r.push(s.last())
        }
    }
}

proof fn lemma_unmarked_add(a: Seq<Inst>, ma: Seq<bool>, b: Seq<Inst>, mb: Seq<bool>)
    requires
        ma.len() == a.len(),
        mb.len() == b.len(),
    ensures
        unmarked(a + b, ma + mb) == unmarked(a, ma) + unmarked(b, mb),
    decreases b.len(),
{
    if b.len() > 0 {
        lemma_unmarked_add(a, ma, b.drop_last(), mb.drop_last());
        assert((a + b).drop_last() =~= a + b.drop_last());
        assert((ma + mb).drop_last() =~= ma + mb.drop_last());
        assert((a + b).last() == b.last());
        assert((ma + mb).last() == mb.last());
    } else {
        assert(a + b =~= a);
        assert(ma + mb =~= ma);
    }
}

proof fn lemma_unmarked_all(s: Seq<Inst>, keep: bool)
    ensures
        unmarked(s, Seq::new(s.len(), |j: int| !keep)) == if keep {
            s
        } else {
            Seq::<Inst>::empty()
        },
    decreases s.len(),
{
    if s.len() > 0 {
        lemma_unmarked_all(s.drop_last(), keep);
        assert(Seq::new(s.len(), |j: int| !keep).drop_last() =~= Seq::new(s.drop_last().len(), |j: int| !keep));
        assert(s.drop_last().push(s.last()) =~= s);
    }
}

/// Count instructions built from values of `p`, one per value of `vs`, in either order.
proof fn lemma_counts_of(vs: Seq<Value>, p: Set<Value>, mk: spec_fn(Value) -> Inst)
    requires
        forall|v: Value| #[trigger] vs.contains(v) ==> p.contains(v),
        forall|v: Value| p.contains(v) ==> rc_of(#[trigger] mk(v), p),
    ensures
        forall|j: int| 0 <= j < vs.len() ==> rc_of(#[trigger] backwards(vs, mk)[j], p),
        forall|j: int| 0 <= j < vs.len() ==> rc_of(#[trigger] vs.map_values(mk)[j], p),
{
    assert forall|j: int| 0 <= j < vs.len() implies rc_of(#[trigger] backwards(vs, mk)[j], p) by {
        assert(vs.contains(vs[vs.len() - 1 - j]));
    }
    assert forall|j: int| 0 <= j < vs.len() implies rc_of(#[trigger] vs.map_values(mk)[j], p) by {
        assert(vs.contains(vs[j]));
    }
}

/// The walk's output, with the counts it added marked: unmarked, it is the walked
/// instructions; marked, a count of a counted value.
proof fn lemma_walk_marks(is: Seq<Inst>, live: Set<Value>, p: Set<Value>, bm: Map<Value, Value>, n: nat, k: nat)
    requires
        k <= is.len(),
    ensures
        exists|m: Seq<bool>|
            {
                &&& m.len() == walk_back(is, live, p, bm, n, k).1.len()
                &&& unmarked(walk_back(is, live, p, bm, n, k).1, m) == is.skip(is.len() - k)
                &&& forall|j: int| 0 <= j < m.len() && #[trigger] m[j] ==> rc_of(walk_back(is, live, p, bm, n, k).1[j], p)
            },
    decreases k,
{
    if k == 0 {
        let m = Seq::<bool>::empty();
        assert(is.skip(is.len() as int) =~= Seq::<Inst>::empty());
        assert(unmarked(walk_back(is, live, p, bm, n, k).1, m) == is.skip(is.len() - k));
    } else {
        lemma_walk_marks(is, live, p, bm, n, (k - 1) as nat);
        let prev = walk_back(is, live, p, bm, n, (k - 1) as nat);
        let mp = choose|m: Seq<bool>|
            {
                &&& m.len() == prev.1.len()
                &&& unmarked(prev.1, m) == is.skip(is.len() - (k - 1))
                &&& forall|j: int| 0 <= j < m.len() && #[trigger] m[j] ==> rc_of(prev.1[j], p)
            };
        let inst = is[is.len() - k];
        let dead_result = match inst.result {
            Some(v) => p.contains(v) && !prev.0.contains(v) && !bm.dom().contains(v),
            None => false,
        };
        let rel0: Seq<Value> = if dead_result {
            seq![inst.result.unwrap()]
        } else {
            Seq::empty()
        };
        let live1 = match inst.result {
            Some(v) => prev.0.remove(v),
            None => prev.0,
        };
        let bs = only_in(borrowing_raw(inst.op), p);
        let cs = only_in(consuming_raw(inst.op), p);
        let borrowed = borrow_pass(bs, live1, rel0, bm, n);
        let consumed = consume_pass(cs, borrowed.0, Seq::empty(), bm, n);
        lemma_pass_values(bs, live1, rel0, bm, n);
        lemma_pass_values(cs, borrowed.0, Seq::empty(), bm, n);
        lemma_only_in(borrowing_raw(inst.op), p);
        lemma_only_in(consuming_raw(inst.op), p);
        assert forall|v: Value| #[trigger] consumed.1.contains(v) implies p.contains(v) by {
            assert(!Seq::<Value>::empty().contains(v));
        }
        assert forall|v: Value| #[trigger] borrowed.1.contains(v) implies p.contains(v) by {
            if rel0.contains(v) {
                assert(rel0[0] == v);
            }
        }
        lemma_counts_of(consumed.1, p, |v: Value| retain(v));
        lemma_counts_of(borrowed.1, p, |v: Value| release(v));
        let a = backwards(consumed.1, |v: Value| retain(v));
        let c = backwards(borrowed.1, |v: Value| release(v));
        let ma = Seq::new(a.len(), |j: int| true);
        let mc = Seq::new(c.len(), |j: int| true);
        let mi = seq![false];
        lemma_unmarked_all(a, false);
        lemma_unmarked_all(c, false);
        assert(unmarked(seq![inst], mi) == seq![inst]) by {
            assert(seq![inst].drop_last() =~= Seq::<Inst>::empty());
            assert(mi.drop_last() =~= Seq::<bool>::empty());
            assert(unmarked(seq![inst].drop_last(), mi.drop_last()) == Seq::<Inst>::empty());
            assert(mi.last() == false);
            assert(seq![inst].last() == inst);
            assert(Seq::<Inst>::empty().push(inst) =~= seq![inst]);
        }
        lemma_unmarked_add(a, ma, seq![inst], mi);
        lemma_unmarked_add(a + seq![inst], ma + mi, c, mc);
        let seg = a + seq![inst] + c;
        let ms = ma + mi + mc;
        lemma_unmarked_add(seg, ms, prev.1, mp);
        assert(walk_back(is, live, p, bm, n, k).1 == seg + prev.1);
        let m = ms + mp;
        assert(is.skip(is.len() - k) =~= seq![inst] + is.skip(is.len() - (k - 1)));
        assert(unmarked(seg, ms) =~= seq![inst]);
        assert forall|j: int| 0 <= j < m.len() && #[trigger] m[j] implies rc_of((seg + prev.1)[j], p) by {
            if j < a.len() {
                assert(seg[j] == a[j]);
            } else if j == a.len() {
                assert(ms[j] == mi[0]);
            } else if j < seg.len() {
                assert(seg[j] == c[j - a.len() - 1]);
            } else {
                assert(m[j] == mp[j - seg.len()]);
                assert((seg + prev.1)[j] == prev.1[j - seg.len()]);
            }
        }
        assert(unmarked(seg + prev.1, m) == is.skip(is.len() - k));
    }
}

/// Inserting counts adds retains and releases and nothing else: marking the instructions
/// it added, the unmarked ones are the block's own, in order, and each marked one is a
/// `Retain` or `Release` of a counted value that defines nothing.
pub proof fn lemma_rc_adds_only_counts(before: Func, after: Func, i: int)
    requires
        before.wf(),
        rc_inserted(before, after),
        0 <= i < before.blocks.len(),
    ensures
        exists|m: Seq<bool>|
            {
                &&& m.len() == after.blocks@[i].insts.len()
                &&& unmarked(after.blocks@[i].insts@, m) == before.blocks@[i].insts@
                &&& forall|j: int| 0 <= j < m.len() && #[trigger] m[j] ==> rc_of(after.blocks@[i].insts@[j], counted_values(before))
            },
{
    let f = before;
    let b = f.blocks@[i];
    let p = counted_values(f);
    if p == Set::<Value>::empty() {
        let s = b.insts@;
        let m = Seq::new(s.len(), |j: int| false);
        lemma_unmarked_all(s, true);
        assert(after.blocks@[i].insts@ == s);
        assert(forall|j: int| 0 <= j < m.len() && #[trigger] m[j] ==> rc_of(after.blocks@[i].insts@[j], p));
        assert(m.len() == after.blocks@[i].insts.len() && unmarked(after.blocks@[i].insts@, m) == b.insts@);
    } else {
        let bm = bases(f);
        let n = f.reprs.len() as nat;
        let tu = only_in(term_consumed(b.term), p);
        let start = live_out(f)[i].union(Set::new(|v: Value| tu.contains(v)));
        let walked = walk(b.insts@, start, p, bm, n);
        let unused = only_in(b.params@, p.difference(walked.0));
        let dying = if exists|j: int| is_pred(f, j, i) {
            members_below(dying_set(f, i), n)
        } else {
            Seq::empty()
        };
        let views_out = only_in(tu, bm.dom());
        let s1 = unused.map_values(|v: Value| release(v));
        let s2 = dying.map_values(|v: Value| release(v));
        let s4 = views_out.map_values(|v: Value| retain(v));
        assert(after.blocks@[i].insts@ == s1 + s2 + walked.1 + s4);
        lemma_only_in(b.params@, p.difference(walked.0));
        lemma_only_in(term_consumed(b.term), p);
        lemma_only_in(tu, bm.dom());
        lemma_live_counted(f);
        super::vset::lemma_members_below(dying_set(f, i), n);
        assert forall|v: Value| #[trigger] dying.contains(v) implies p.contains(v) by {
            let jp = choose|jp: int| is_pred(f, jp, i);
            assert(live_out(f)[jp].contains(v));
        }
        lemma_counts_of(unused, p, |v: Value| release(v));
        lemma_counts_of(dying, p, |v: Value| release(v));
        lemma_counts_of(views_out, p, |v: Value| retain(v));
        lemma_walk_marks(b.insts@, start, p, bm, n, b.insts.len() as nat);
        let mw = choose|m: Seq<bool>|
            {
                &&& m.len() == walked.1.len()
                &&& unmarked(walked.1, m) == b.insts@.skip(b.insts@.len() - b.insts.len())
                &&& forall|j: int| 0 <= j < m.len() && #[trigger] m[j] ==> rc_of(walked.1[j], p)
            };
        assert(b.insts@.skip(0) =~= b.insts@);
        let m1 = Seq::new(s1.len(), |j: int| true);
        let m2 = Seq::new(s2.len(), |j: int| true);
        let m4 = Seq::new(s4.len(), |j: int| true);
        lemma_unmarked_all(s1, false);
        lemma_unmarked_all(s2, false);
        lemma_unmarked_all(s4, false);
        lemma_unmarked_add(s1, m1, s2, m2);
        lemma_unmarked_add(s1 + s2, m1 + m2, walked.1, mw);
        lemma_unmarked_add(s1 + s2 + walked.1, m1 + m2 + mw, s4, m4);
        let m = m1 + m2 + mw + m4;
        let whole = s1 + s2 + walked.1 + s4;
        assert(unmarked(whole, m) =~= b.insts@);
        assert forall|j: int| 0 <= j < m.len() && #[trigger] m[j] implies rc_of(whole[j], p) by {
            if j < s1.len() {
                assert(whole[j] == s1[j]);
            } else if j < s1.len() + s2.len() {
                assert(whole[j] == s2[j - s1.len()]);
            } else if j < s1.len() + s2.len() + walked.1.len() {
                assert(whole[j] == walked.1[j - s1.len() - s2.len()]);
                assert(m[j] == mw[j - s1.len() - s2.len()]);
            } else {
                assert(whole[j] == s4[j - s1.len() - s2.len() - walked.1.len()]);
            }
        }
        assert(m.len() == after.blocks@[i].insts.len());
    }
}

} // verus!
