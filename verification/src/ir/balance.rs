//! What the inserted counts add up to.
//!
//! Every counted value owns one reference when it is produced. Along the instructions that
//! follow, a `Retain` adds one, a `Release` gives one up, and each consuming use takes one;
//! a borrow only needs one to be there. `run` follows one value's count through a run of
//! instructions, and fails as soon as an instruction needs a reference the value does not
//! hold. The laws here say that, within a block, the counts `refcount::insert` adds make a
//! value's count come out right: every use finds a reference, and at the end of the block
//! the value holds exactly the one reference it hands on, or none.

use super::refcount::{
    backwards, bases, edges, borrow_pass, borrowing_raw, consume_pass, consuming_raw, counted_values, live_out, mark,
    only_in, rc_block, rc_inserted, release, retain, step, term_consumed, walk, walk_back,
};
use super::ssa::{Func, Inst, Op, Term, Value};
use super::vset::{lemma_missing_subset, missing};
use vstd::prelude::*;

verus! {

/// How many times `v` occurs in `s`.
pub open spec fn occ(s: Seq<Value>, v: Value) -> nat
    decreases s.len(),
{
    if s.len() == 0 {
        0
    } else {
        occ(s.drop_last(), v) + if s.last() == v {
            1nat
        } else {
            0nat
        }
    }
}

/// Whether `inst` counts `v` up or down.
pub open spec fn counts(inst: Inst, v: Value) -> bool {
    inst.op == Op::Retain(v) || inst.op == Op::Release(v)
}

/// The references `v` holds after `inst`, given `c` before it; `None` if `inst` needs one
/// that is not there. A retain or release of `v` needs one; any other instruction needs one
/// if it borrows `v`, and takes one for each time it consumes `v`.
pub open spec fn apply(inst: Inst, v: Value, c: int) -> Option<int> {
    if inst.op == Op::Retain(v) {
        if c >= 1 {
            Some(c + 1)
        } else {
            None
        }
    } else if inst.op == Op::Release(v) {
        if c >= 1 {
            Some(c - 1)
        } else {
            None
        }
    } else {
        let m = occ(owned_operands(inst.op), v) as int;
        if (read_operands(inst.op).contains(v) && c < 1) || (m > 0 && c < m) {
            None
        } else {
            Some(c - m)
        }
    }
}

/// The references `v` holds after the instructions `s`, given `c` before them; `None` if
/// one of them needs a reference that is not there.
pub open spec fn run(s: Seq<Inst>, v: Value, c: int) -> Option<int>
    decreases s.len(),
{
    if s.len() == 0 {
        Some(c)
    } else {
        match apply(s[0], v, c) {
            Some(c2) => run(s.drop_first(), v, c2),
            None => None,
        }
    }
}

/// Whether `inst` has anything to do with `v`.
pub open spec fn touches(inst: Inst, v: Value) -> bool {
    counts(inst, v) || read_operands(inst.op).contains(v) || owned_operands(inst.op).contains(v)
}

/// The operands an op only reads: the closure a call goes through, the value a field or
/// element is read out of, a lookup's collection and key, the value a cast, test or
/// unwrap looks at, and the operands of arithmetic and comparisons.
pub open spec fn read_operands(op: Op) -> Seq<Value> {
    match op {
        Op::CallClosure { callee, .. } => seq![callee],
        Op::Field { base, .. } => seq![base],
        Op::Elem { base, .. } => seq![base],
        Op::Index { base, index } => seq![base, index],
        Op::Cast(x) => seq![x],
        Op::IsNull(x) => seq![x],
        Op::IsErr(x) => seq![x],
        Op::UnwrapOk(x) => seq![x],
        Op::UnwrapErr(x) => seq![x],
        Op::IsVariant { value, .. } => seq![value],
        Op::Prim(_, xs) => xs@,
        _ => Seq::empty(),
    }
}

/// The pass classifies each operand as the laws here do.
proof fn lemma_classification(op: Op)
    ensures
        consuming_raw(op) == owned_operands(op),
        borrowing_raw(op) == read_operands(op),
{
}

proof fn lemma_occ_contains(s: Seq<Value>, v: Value)
    ensures
        s.contains(v) <==> occ(s, v) > 0,
    decreases s.len(),
{
    if s.len() > 0 {
        lemma_occ_contains(s.drop_last(), v);
        if s.contains(v) {
            let j = choose|j: int| 0 <= j < s.len() && s[j] == v;
            if j < s.len() - 1 {
                assert(s.drop_last()[j] == v);
            }
        }
        if s.drop_last().contains(v) {
            let j = choose|j: int| 0 <= j < s.drop_last().len() && s.drop_last()[j] == v;
            assert(s[j] == v);
        }
        if s.last() == v {
            assert(s[s.len() - 1] == v);
        }
    }
}

proof fn lemma_occ_only_in(s: Seq<Value>, keep: Set<Value>, v: Value)
    requires
        keep.contains(v),
    ensures
        occ(only_in(s, keep), v) == occ(s, v),
    decreases s.len(),
{
    if s.len() > 0 {
        lemma_occ_only_in(s.drop_last(), keep, v);
        let r = only_in(s.drop_last(), keep);
        if keep.contains(s.last()) {
            assert(r.push(s.last()).drop_last() == r);
        }
    }
}

proof fn lemma_occ_push(s: Seq<Value>, w: Value, v: Value)
    ensures
        occ(s.push(w), v) == occ(s, v) + if w == v {
            1nat
        } else {
            0nat
        },
{
    assert(s.push(w).drop_last() == s);
}

proof fn lemma_contains_last(s: Seq<Value>, v: Value)
    requires
        s.len() > 0,
    ensures
        s.contains(v) <==> s.drop_last().contains(v) || s.last() == v,
{
    if s.contains(v) {
        let j = choose|j: int| 0 <= j < s.len() && s[j] == v;
        if j < s.len() - 1 {
            assert(s.drop_last()[j] == v);
        }
    }
    if s.drop_last().contains(v) {
        let j = choose|j: int| 0 <= j < s.drop_last().len() && s.drop_last()[j] == v;
        assert(s[j] == v);
    }
    if s.last() == v {
        assert(s[s.len() - 1] == v);
    }
}

proof fn lemma_apply_untouched(inst: Inst, v: Value, c: int)
    requires
        !touches(inst, v),
    ensures
        apply(inst, v, c) == Some(c),
{
    lemma_classification(inst.op);
    lemma_occ_contains(consuming_raw(inst.op), v);
    assert(occ(consuming_raw(inst.op), v) == 0);
    assert(inst.op != Op::Retain(v) && inst.op != Op::Release(v));
    assert(!borrowing_raw(inst.op).contains(v));
}

proof fn lemma_run_append(a: Seq<Inst>, b: Seq<Inst>, v: Value, c: int)
    ensures
        run(a + b, v, c) == match run(a, v, c) {
            Some(c2) => run(b, v, c2),
            None => None,
        },
    decreases a.len(),
{
    if a.len() > 0 {
        assert((a + b)[0] == a[0]);
        assert((a + b).drop_first() == a.drop_first() + b);
        match apply(a[0], v, c) {
            Some(c2) => lemma_run_append(a.drop_first(), b, v, c2),
            None => {},
        }
    } else {
        assert(a + b == b);
    }
}

proof fn lemma_run_untouched(s: Seq<Inst>, v: Value, c: int)
    requires
        forall|j: int| 0 <= j < s.len() ==> !touches(#[trigger] s[j], v),
    ensures
        run(s, v, c) == Some(c),
    decreases s.len(),
{
    if s.len() > 0 {
        lemma_apply_untouched(s[0], v, c);
        assert forall|j: int| 0 <= j < s.drop_first().len() implies !touches(#[trigger] s.drop_first()[j], v) by {
            assert(s.drop_first()[j] == s[j + 1]);
        }
        lemma_run_untouched(s.drop_first(), v, c);
    }
}

proof fn lemma_backwards_last(vs: Seq<Value>, mk: spec_fn(Value) -> Inst)
    requires
        vs.len() > 0,
    ensures
        backwards(vs, mk) == seq![mk(vs.last())] + backwards(vs.drop_last(), mk),
{
    assert(backwards(vs, mk) =~= seq![mk(vs.last())] + backwards(vs.drop_last(), mk));
}

/// Retaining `v` once per occurrence in `vs`.
proof fn lemma_run_retains(vs: Seq<Value>, v: Value, c: int)
    requires
        c >= 1 || occ(vs, v) == 0,
    ensures
        run(backwards(vs, |w: Value| retain(w)), v, c) == Some(c + occ(vs, v)),
    decreases vs.len(),
{
    let mk = |w: Value| retain(w);
    if vs.len() == 0 {
        assert(backwards(vs, mk).len() == 0);
    } else {
        lemma_backwards_last(vs, mk);
        let head = seq![mk(vs.last())];
        lemma_run_append(head, backwards(vs.drop_last(), mk), v, c);
        let c2 = if vs.last() == v {
            c + 1
        } else {
            c
        };
        assert(head.drop_first() =~= Seq::<Inst>::empty());
        assert(head[0] == mk(vs.last()));
        assert(apply(head[0], v, c) == Some(c2));
        assert(run(head.drop_first(), v, c2) == Some(c2));
        assert(run(head, v, c) == Some(c2));
        lemma_run_retains(vs.drop_last(), v, c2);
    }
}

/// Releasing `v` once per occurrence in `vs`.
proof fn lemma_run_releases(vs: Seq<Value>, v: Value, c: int)
    requires
        c >= occ(vs, v) || occ(vs, v) == 0,
    ensures
        run(backwards(vs, |w: Value| release(w)), v, c) == Some(c - occ(vs, v)),
    decreases vs.len(),
{
    let mk = |w: Value| release(w);
    if vs.len() == 0 {
        assert(backwards(vs, mk).len() == 0);
    } else {
        lemma_backwards_last(vs, mk);
        let head = seq![mk(vs.last())];
        lemma_run_append(head, backwards(vs.drop_last(), mk), v, c);
        let c2 = if vs.last() == v {
            c - 1
        } else {
            c
        };
        assert(head.drop_first() =~= Seq::<Inst>::empty());
        assert(head[0] == mk(vs.last()));
        assert(apply(head[0], v, c) == Some(c2));
        assert(run(head.drop_first(), v, c2) == Some(c2));
        assert(run(head, v, c) == Some(c2));
        lemma_run_releases(vs.drop_last(), v, c2);
    }
}

/// No view is read out of `v`.
pub open spec fn no_view_of(bm: Map<Value, Value>, v: Value) -> bool {
    forall|x: Value| bm.dom().contains(x) ==> #[trigger] bm[x] != v
}

/// Marking `w` live adds `v` only if `w` is `v`, when no view is read out of `v`.
proof fn lemma_mark_other(live: Set<Value>, w: Value, bm: Map<Value, Value>, n: nat, v: Value)
    requires
        no_view_of(bm, v),
        v < n,
        n <= u32::MAX as nat + 1,
    ensures
        mark(live, w, bm, n).contains(v) == (live.contains(v) || w == v),
    decreases missing(live, n),
{
    if live.contains(w) || w >= n || n > u32::MAX as nat + 1 {
    } else {
        lemma_missing_subset(live, live.insert(w), n);
        assert(live.insert(w).contains(w));
        if bm.dom().contains(w) {
            lemma_mark_other(live.insert(w), bm[w], bm, n, v);
        }
    }
}

/// The borrow pass over `ws`: `v` is live afterwards iff it was or is borrowed, and it is
/// released once if it is borrowed while dead afterwards.
proof fn lemma_borrow_pass(ws: Seq<Value>, live: Set<Value>, rel: Seq<Value>, bm: Map<Value, Value>, n: nat, v: Value)
    requires
        no_view_of(bm, v),
        !bm.dom().contains(v),
        v < n,
        n <= u32::MAX as nat + 1,
    ensures
        borrow_pass(ws, live, rel, bm, n).0.contains(v) == (live.contains(v) || ws.contains(v)),
        occ(borrow_pass(ws, live, rel, bm, n).1, v) == occ(rel, v) + if ws.contains(v) && !live.contains(v) {
            1nat
        } else {
            0nat
        },
    decreases ws.len(),
{
    if ws.len() > 0 {
        lemma_borrow_pass(ws.drop_last(), live, rel, bm, n, v);
        let prev = borrow_pass(ws.drop_last(), live, rel, bm, n);
        let w = ws.last();
        lemma_contains_last(ws, v);
        lemma_mark_other(prev.0, w, bm, n, v);
        lemma_occ_push(prev.1, w, v);
    }
}

/// The consume pass over `ws`: `v` is live afterwards iff it was or is consumed, and it is
/// retained once per consuming use, but one fewer when it is dead afterwards.
proof fn lemma_consume_pass(ws: Seq<Value>, live: Set<Value>, ret: Seq<Value>, bm: Map<Value, Value>, n: nat, v: Value)
    requires
        no_view_of(bm, v),
        !bm.dom().contains(v),
        v < n,
        n <= u32::MAX as nat + 1,
    ensures
        consume_pass(ws, live, ret, bm, n).0.contains(v) == (live.contains(v) || ws.contains(v)),
        occ(consume_pass(ws, live, ret, bm, n).1, v) == occ(ret, v) + if live.contains(v) {
            occ(ws, v)
        } else if occ(ws, v) > 0 {
            (occ(ws, v) - 1) as nat
        } else {
            0nat
        },
    decreases ws.len(),
{
    if ws.len() > 0 {
        lemma_consume_pass(ws.drop_last(), live, ret, bm, n, v);
        let prev = consume_pass(ws.drop_last(), live, ret, bm, n);
        let w = ws.last();
        lemma_contains_last(ws, v);
        lemma_occ_contains(ws.drop_last(), v);
        lemma_mark_other(prev.0, w, bm, n, v);
        lemma_occ_push(prev.1, w, v);
    }
}

/// The conditions on `v` under which the walk counts it right: a counted value that is not
/// a view and that no view is read out of.
pub open spec fn plain(p: Set<Value>, bm: Map<Value, Value>, n: nat, v: Value) -> bool {
    &&& p.contains(v)
    &&& no_view_of(bm, v)
    &&& !bm.dom().contains(v)
    &&& v < n
    &&& n <= u32::MAX as nat + 1
}

/// One step of the walk, for an instruction that does not define or count `v`: `v` is
/// live before it iff it is live after it or used by it, and if it is live before, the
/// rewritten instruction uses up one reference exactly when `v` is dead after it.
proof fn lemma_step(inst: Inst, live: Set<Value>, p: Set<Value>, bm: Map<Value, Value>, n: nat, v: Value, c: int)
    requires
        plain(p, bm, n, v),
        inst.result != Some(v),
        !counts(inst, v),
    ensures
        step(inst, live, p, bm, n).0.contains(v) == (live.contains(v) || borrowing_raw(inst.op).contains(v)
            || consuming_raw(inst.op).contains(v)),
        step(inst, live, p, bm, n).0.contains(v) && c >= 1 ==> run(step(inst, live, p, bm, n).1, v, c) == Some(
            if live.contains(v) {
                c
            } else {
                c - 1
            },
        ),
        !step(inst, live, p, bm, n).0.contains(v) ==> run(step(inst, live, p, bm, n).1, v, c) == Some(c),
{
    let dead_result = match inst.result {
        Some(r) => p.contains(r) && !live.contains(r) && !bm.dom().contains(r),
        None => false,
    };
    let rel0: Seq<Value> = if dead_result {
        seq![inst.result.unwrap()]
    } else {
        Seq::empty()
    };
    let live1 = match inst.result {
        Some(r) => live.remove(r),
        None => live,
    };
    let braw = borrowing_raw(inst.op);
    let craw = consuming_raw(inst.op);
    let bs = only_in(braw, p);
    let cs = only_in(craw, p);
    let borrowed = borrow_pass(bs, live1, rel0, bm, n);
    let consumed = consume_pass(cs, borrowed.0, Seq::empty(), bm, n);
    assert(occ(rel0, v) == 0) by {
        if dead_result {
            assert(rel0.drop_last() =~= Seq::<Value>::empty());
            assert(occ(rel0.drop_last(), v) == 0);
            assert(rel0.last() == inst.result.unwrap());
            assert(rel0.last() != v);
        } else {
            assert(rel0.len() == 0);
        }
    }
    assert(occ(Seq::<Value>::empty(), v) == 0);
    assert(live1.contains(v) == live.contains(v));
    lemma_occ_only_in(braw, p, v);
    lemma_occ_only_in(craw, p, v);
    lemma_occ_contains(braw, v);
    lemma_occ_contains(craw, v);
    lemma_occ_contains(bs, v);
    lemma_occ_contains(cs, v);
    lemma_borrow_pass(bs, live1, rel0, bm, n, v);
    lemma_consume_pass(cs, borrowed.0, Seq::empty(), bm, n, v);
    let rets = backwards(consumed.1, |w: Value| retain(w));
    let rels = backwards(borrowed.1, |w: Value| release(w));
    assert(step(inst, live, p, bm, n).1 == rets + seq![inst] + rels);
    let b = braw.contains(v);
    let m = occ(craw, v) as int;
    let t = occ(consumed.1, v) as int;
    let r = occ(borrowed.1, v) as int;
    if step(inst, live, p, bm, n).0.contains(v) && c >= 1 {
        lemma_run_retains(consumed.1, v, c);
        assert(apply(inst, v, c + t) == Some(c + t - m));
        assert(seq![inst].drop_first() =~= Seq::<Inst>::empty());
        assert(seq![inst][0] == inst);
        assert(run(seq![inst].drop_first(), v, c + t - m) == Some(c + t - m));
        assert(run(seq![inst], v, c + t) == Some(c + t - m));
        lemma_run_releases(borrowed.1, v, c + t - m);
        lemma_run_append(rets, seq![inst], v, c);
        lemma_run_append(rets + seq![inst], rels, v, c);
    } else if !step(inst, live, p, bm, n).0.contains(v) {
        lemma_run_retains(consumed.1, v, c);
        lemma_apply_untouched(inst, v, c);
        assert(seq![inst].drop_first() =~= Seq::<Inst>::empty());
        assert(seq![inst][0] == inst);
        assert(run(seq![inst].drop_first(), v, c) == Some(c));
        assert(run(seq![inst], v, c) == Some(c));
        lemma_run_releases(borrowed.1, v, c);
        lemma_run_append(rets, seq![inst], v, c);
        lemma_run_append(rets + seq![inst], rels, v, c);
    }
}

/// The walk over the last `k` instructions of a block, none of which defines or counts
/// `v`, from what is live at the block's end (`end`): if `v` is live before them, they use
/// up one reference of it exactly when it is not live at the end, and otherwise they do not
/// touch it.
proof fn lemma_walk(is: Seq<Inst>, end: Set<Value>, p: Set<Value>, bm: Map<Value, Value>, n: nat, k: nat, v: Value, c: int)
    requires
        plain(p, bm, n, v),
        k <= is.len(),
        forall|j: int| is.len() - k <= j < is.len() ==> (#[trigger] is[j]).result != Some(v) && !counts(is[j], v),
    ensures
        end.contains(v) ==> walk_back(is, end, p, bm, n, k).0.contains(v),
        walk_back(is, end, p, bm, n, k).0.contains(v) && c >= 1 ==> run(walk_back(is, end, p, bm, n, k).1, v, c)
            == Some(
            if end.contains(v) {
                c
            } else {
                c - 1
            },
        ),
        !walk_back(is, end, p, bm, n, k).0.contains(v) ==> run(walk_back(is, end, p, bm, n, k).1, v, c) == Some(c),
    decreases k,
{
    if k == 0 {
        assert(walk_back(is, end, p, bm, n, k).1.len() == 0);
    } else {
        let prev = walk_back(is, end, p, bm, n, (k - 1) as nat);
        let inst = is[is.len() - k];
        let st = step(inst, prev.0, p, bm, n);
        assert(walk_back(is, end, p, bm, n, k) == (st.0, st.1 + prev.1));
        lemma_step(inst, prev.0, p, bm, n, v, c);
        lemma_run_append(st.1, prev.1, v, c);
        if st.0.contains(v) && c >= 1 {
            if prev.0.contains(v) {
                lemma_walk(is, end, p, bm, n, (k - 1) as nat, v, c);
            } else {
                lemma_walk(is, end, p, bm, n, (k - 1) as nat, v, c - 1);
            }
        } else {
            lemma_walk(is, end, p, bm, n, (k - 1) as nat, v, c);
        }
    }
}

/// The walk over more instructions ends with the walk over fewer.
proof fn lemma_walk_suffix(is: Seq<Inst>, end: Set<Value>, p: Set<Value>, bm: Map<Value, Value>, n: nat, k1: nat, k2: nat)
    requires
        k1 <= k2 <= is.len(),
    ensures
        exists|x: Seq<Inst>| walk_back(is, end, p, bm, n, k2).1 == x + walk_back(is, end, p, bm, n, k1).1,
    decreases k2,
{
    if k2 == k1 {
        assert(walk_back(is, end, p, bm, n, k2).1 == Seq::<Inst>::empty() + walk_back(is, end, p, bm, n, k1).1);
    } else {
        lemma_walk_suffix(is, end, p, bm, n, k1, (k2 - 1) as nat);
        let x = choose|x: Seq<Inst>|
            walk_back(is, end, p, bm, n, (k2 - 1) as nat).1 == x + walk_back(is, end, p, bm, n, k1).1;
        let prev = walk_back(is, end, p, bm, n, (k2 - 1) as nat);
        let st = step(is[is.len() - k2], prev.0, p, bm, n);
        assert(walk_back(is, end, p, bm, n, k2).1 == st.1 + prev.1);
        assert(st.1 + prev.1 == (st.1 + x) + walk_back(is, end, p, bm, n, k1).1);
    }
}

proof fn lemma_occ_only_in_out(s: Seq<Value>, keep: Set<Value>, v: Value)
    requires
        !keep.contains(v),
    ensures
        occ(only_in(s, keep), v) == 0,
    decreases s.len(),
{
    if s.len() > 0 {
        lemma_occ_only_in_out(s.drop_last(), keep, v);
        let r = only_in(s.drop_last(), keep);
        if keep.contains(s.last()) {
            lemma_occ_push(r, s.last(), v);
        }
    }
}

/// Releasing, in order, each value of `vs`.
proof fn lemma_run_release_each(vs: Seq<Value>, v: Value, c: int)
    requires
        c >= occ(vs, v) || occ(vs, v) == 0,
    ensures
        run(vs.map_values(|w: Value| release(w)), v, c) == Some(c - occ(vs, v)),
    decreases vs.len(),
{
    let mk = |w: Value| release(w);
    if vs.len() == 0 {
        assert(vs.map_values(mk).len() == 0);
    } else {
        let d = vs.drop_last();
        lemma_run_release_each(d, v, c);
        assert(vs.map_values(mk) =~= d.map_values(mk) + seq![mk(vs.last())]);
        lemma_run_append(d.map_values(mk), seq![mk(vs.last())], v, c);
        let c1 = c - occ(d, v);
        let last = seq![mk(vs.last())];
        assert(last[0] == release(vs.last()));
        assert(last.drop_first() =~= Seq::<Inst>::empty());
        if vs.last() == v {
            assert(apply(last[0], v, c1) == Some(c1 - 1));
            assert(run(last.drop_first(), v, c1 - 1) == Some(c1 - 1));
        } else {
            assert(apply(last[0], v, c1) == Some(c1));
            assert(run(last.drop_first(), v, c1) == Some(c1));
        }
    }
}

/// Retains of views only: none of them touches a value that is not a view.
proof fn lemma_run_view_retains(ts: Seq<Value>, bm: Map<Value, Value>, v: Value, c: int)
    requires
        !bm.dom().contains(v),
    ensures
        run(only_in(ts, bm.dom()).map_values(|w: Value| retain(w)), v, c) == Some(c),
{
    let s = only_in(ts, bm.dom()).map_values(|w: Value| retain(w));
    super::refcount::lemma_only_in(ts, bm.dom());
    assert forall|j: int| 0 <= j < s.len() implies !touches(#[trigger] s[j], v) by {
        let w = only_in(ts, bm.dom())[j];
        assert(only_in(ts, bm.dom()).contains(w));
        assert(s[j] == retain(w));
        assert(w != v);
    }
    lemma_run_untouched(s, v, c);
}

/// Whether block `i` of `f` hands `v` on: it is live out of the block, or the terminator
/// consumes it.
pub open spec fn handed_on(f: Func, i: int, v: Value) -> bool {
    live_out(f)[i].contains(v) || term_consumed(f.blocks@[i].term).contains(v)
}

/// A counted value that is not a view, and that no view is read out of, and that an
/// instruction of block `i` defines: once counts are inserted, from the one reference it is
/// produced with, every later instruction of the block that needs a reference of it finds
/// one, and at the block's end it holds exactly one reference if the block hands it on,
/// and none otherwise: it has been released exactly once.
pub proof fn lemma_defined_value_balances(before: Func, after: Func, i: int, d: int, v: Value)
    requires
        before.wf(),
        rc_inserted(before, after),
        0 <= i < before.blocks.len(),
        0 <= d < before.blocks@[i].insts.len(),
        before.blocks@[i].insts@[d].result == Some(v),
        counted_values(before).contains(v),
        !bases(before).dom().contains(v),
        no_view_of(bases(before), v),
        !uses(before.blocks@[i].insts@[d], v),
        forall|j: int|
            d < j < before.blocks@[i].insts.len() ==> (#[trigger] before.blocks@[i].insts@[j]).result != Some(v)
                && !counts(before.blocks@[i].insts@[j], v),
    ensures
        exists|pre: Seq<Inst>, post: Seq<Inst>|
            {
                &&& after.blocks@[i].insts@ == pre + seq![before.blocks@[i].insts@[d]] + post
                &&& run(post, v, 1) == Some(
                    if handed_on(before, i, v) {
                        1int
                    } else {
                        0int
                    },
                )
            },
{
    let f = before;
    let b = f.blocks@[i];
    let is = b.insts@;
    let p = counted_values(f);
    let bm = bases(f);
    let n = f.reprs.len() as nat;
    let tu = only_in(term_consumed(b.term), p);
    let start = live_out(f)[i].union(Set::new(|x: Value| tu.contains(x)));
    super::refcount::lemma_only_in(term_consumed(b.term), p);
    assert(start.contains(v) == handed_on(f, i, v));
    assert(plain(p, bm, n, v));
    assert(p != Set::<Value>::empty()) by {
        assert(p.contains(v));
    }
    assert(after.blocks@[i].insts@ == rc_block(f, i));
    let inst = is[d];
    lemma_classification(inst.op);
    let kd = (is.len() - d) as nat;
    let prev = walk_back(is, start, p, bm, n, (kd - 1) as nat);
    let st = step(inst, prev.0, p, bm, n);
    assert(is[is.len() - kd] == inst);
    assert(walk_back(is, start, p, bm, n, kd) == (st.0, st.1 + prev.1));
    lemma_walk_suffix(is, start, p, bm, n, kd, is.len());
    let x = choose|x: Seq<Inst>| walk_back(is, start, p, bm, n, is.len()).1 == x + walk_back(is, start, p, bm, n, kd).1;
    // The step at the definition: retains (none of `v`), the definition, releases.
    let dead = !prev.0.contains(v);
    let rel0: Seq<Value> = if dead {
        seq![v]
    } else {
        Seq::empty()
    };
    let live1 = prev.0.remove(v);
    let bs = only_in(borrowing_raw(inst.op), p);
    let cs = only_in(consuming_raw(inst.op), p);
    let borrowed = borrow_pass(bs, live1, rel0, bm, n);
    let consumed = consume_pass(cs, borrowed.0, Seq::empty(), bm, n);
    let rets = backwards(consumed.1, |w: Value| retain(w));
    let rels = backwards(borrowed.1, |w: Value| release(w));
    assert(st.1 == rets + seq![inst] + rels);
    super::refcount::lemma_only_in(borrowing_raw(inst.op), p);
    lemma_borrow_pass(bs, live1, rel0, bm, n, v);
    assert(occ(rel0, v) == if dead {
        1nat
    } else {
        0nat
    }) by {
        if dead {
            assert(rel0.drop_last() =~= Seq::<Value>::empty());
            assert(occ(rel0.drop_last(), v) == 0);
        }
    }
    assert forall|j: int| is.len() - (kd - 1) <= j < is.len() implies (#[trigger] is[j]).result != Some(v) && !counts(
        is[j],
        v,
    ) by {
        assert(d < j);
    }
    let e: int = if handed_on(f, i, v) {
        1
    } else {
        0
    };
    let tail = only_in(tu, bm.dom()).map_values(|w: Value| retain(w));
    let post = rels + prev.1 + tail;
    lemma_run_releases(borrowed.1, v, 1);
    lemma_run_append(rels, prev.1, v, 1);
    lemma_run_append(rels + prev.1, tail, v, 1);
    lemma_run_view_retains(tu, bm, v, e);
    if dead {
        lemma_walk(is, start, p, bm, n, (kd - 1) as nat, v, 0);
    } else {
        lemma_walk(is, start, p, bm, n, (kd - 1) as nat, v, 1);
    }
    assert(run(post, v, 1) == Some(e));
    let unused = only_in(b.params@, p.difference(walk(is, start, p, bm, n).0));
    let dying = if exists|j: int| super::refcount::is_pred(f, j, i) {
        super::vset::members_below(super::refcount::dying_set(f, i), n)
    } else {
        Seq::empty()
    };
    let head = unused.map_values(|w: Value| release(w)) + dying.map_values(|w: Value| release(w));
    let pre = head + x + rets;
    assert(rc_block(f, i) == head + walk(is, start, p, bm, n).1 + tail);
    assert(rc_block(f, i) =~= pre + seq![inst] + post);
}

/// A block parameter that is counted, not a view, and that no view is read out of: it
/// arrives owning one reference, and once counts are inserted every instruction of the
/// block that needs a reference of it finds one, and at the block's end it holds exactly
/// one reference if the block hands it on, and none otherwise.
pub proof fn lemma_param_balances(before: Func, after: Func, i: int, v: Value)
    requires
        before.wf(),
        rc_inserted(before, after),
        0 <= i < before.blocks.len(),
        occ(before.blocks@[i].params@, v) == 1,
        counted_values(before).contains(v),
        !bases(before).dom().contains(v),
        no_view_of(bases(before), v),
        forall|j: int|
            0 <= j < before.blocks@[i].insts.len() ==> (#[trigger] before.blocks@[i].insts@[j]).result != Some(v)
                && !counts(before.blocks@[i].insts@[j], v),
    ensures
        run(after.blocks@[i].insts@, v, 1) == Some(
            if handed_on(before, i, v) {
                1int
            } else {
                0int
            },
        ),
{
    let f = before;
    let b = f.blocks@[i];
    let is = b.insts@;
    let p = counted_values(f);
    let bm = bases(f);
    let n = f.reprs.len() as nat;
    let tu = only_in(term_consumed(b.term), p);
    let start = live_out(f)[i].union(Set::new(|x: Value| tu.contains(x)));
    super::refcount::lemma_only_in(term_consumed(b.term), p);
    assert(start.contains(v) == handed_on(f, i, v));
    assert(plain(p, bm, n, v));
    assert(p != Set::<Value>::empty()) by {
        assert(p.contains(v));
    }
    assert(after.blocks@[i].insts@ == rc_block(f, i));
    let walked = walk(is, start, p, bm, n);
    let e: int = if handed_on(f, i, v) {
        1
    } else {
        0
    };
    let unused = only_in(b.params@, p.difference(walked.0));
    let dying = if exists|j: int| super::refcount::is_pred(f, j, i) {
        super::vset::members_below(super::refcount::dying_set(f, i), n)
    } else {
        Seq::empty()
    };
    let tail = only_in(tu, bm.dom()).map_values(|w: Value| retain(w));
    let rel_unused = unused.map_values(|w: Value| release(w));
    let rel_dying = dying.map_values(|w: Value| release(w));
    assert(rc_block(f, i) == rel_unused + rel_dying + walked.1 + tail);
    // The parameter is released at the top exactly when the walk finds it dead.
    let u: int = if walked.0.contains(v) {
        0
    } else {
        1
    };
    if walked.0.contains(v) {
        lemma_occ_only_in_out(b.params@, p.difference(walked.0), v);
    } else {
        lemma_occ_only_in(b.params@, p.difference(walked.0), v);
    }
    lemma_run_release_each(unused, v, 1);
    // It never dies on entry: it is one of the block's parameters.
    lemma_occ_contains(b.params@, v);
    assert(!super::refcount::dying_set(f, i).contains(v));
    super::vset::lemma_members_below(super::refcount::dying_set(f, i), n);
    lemma_occ_contains(dying, v);
    lemma_run_release_each(dying, v, 1 - u);
    lemma_walk(is, start, p, bm, n, is.len(), v, 1 - u);
    lemma_run_view_retains(tu, bm, v, e);
    lemma_run_append(rel_unused, rel_dying, v, 1);
    lemma_run_append(rel_unused + rel_dying, walked.1, v, 1);
    lemma_run_append(rel_unused + rel_dying + walked.1, tail, v, 1);
}

/// Whether `inst` uses `v`, consuming or borrowing.
pub open spec fn uses(inst: Inst, v: Value) -> bool {
    read_operands(inst.op).contains(v) || owned_operands(inst.op).contains(v)
}

/// Before the last `k` instructions, none of which defines or counts `v`, the walk finds
/// `v` live exactly when it is live at the end or one of them uses it.
proof fn lemma_walk_live(is: Seq<Inst>, end: Set<Value>, p: Set<Value>, bm: Map<Value, Value>, n: nat, k: nat, v: Value)
    requires
        plain(p, bm, n, v),
        k <= is.len(),
        forall|j: int| is.len() - k <= j < is.len() ==> (#[trigger] is[j]).result != Some(v) && !counts(is[j], v),
    ensures
        walk_back(is, end, p, bm, n, k).0.contains(v) == (end.contains(v) || exists|j: int|
            is.len() - k <= j < is.len() && #[trigger] uses(is[j], v)),
    decreases k,
{
    if k > 0 {
        let prev = walk_back(is, end, p, bm, n, (k - 1) as nat);
        let inst = is[is.len() - k];
        lemma_walk_live(is, end, p, bm, n, (k - 1) as nat, v);
        lemma_step(inst, prev.0, p, bm, n, v, 1);
        lemma_classification(inst.op);
        assert(walk_back(is, end, p, bm, n, k).0 == step(inst, prev.0, p, bm, n).0);
        if exists|j: int| is.len() - k <= j < is.len() && #[trigger] uses(is[j], v) {
            let j = choose|j: int| is.len() - k <= j < is.len() && #[trigger] uses(is[j], v);
            if j != is.len() - k {
                assert(is.len() - (k - 1) <= j < is.len() && uses(is[j], v));
            }
        }
        if exists|j: int| is.len() - (k - 1) <= j < is.len() && #[trigger] uses(is[j], v) {
            let j = choose|j: int| is.len() - (k - 1) <= j < is.len() && #[trigger] uses(is[j], v);
            assert(is.len() - k <= j < is.len() && uses(is[j], v));
        }
        if uses(inst, v) {
            assert(is.len() - k <= is.len() - k < is.len() && uses(is[is.len() - k], v));
        }
    }
}

/// A value no view is read out of is in the closure of a set under bases only if it is in
/// the set.
proof fn lemma_closure_plain(s: Set<Value>, bm: Map<Value, Value>, v: Value)
    requires
        no_view_of(bm, v),
    ensures
        super::refcount::closure(s, bm).contains(v) == s.contains(v),
{
    if super::refcount::closure(s, bm).contains(v) {
        let (y, k) = choose|y: Value, k: nat| s.contains(y) && super::refcount::chain(bm, y, k) == Some(v);
        if k > 0 {
            let x = super::refcount::chain(bm, y, (k - 1) as nat);
            assert(x is Some);
            assert(bm.dom().contains(x.unwrap()));
            assert(bm[x.unwrap()] == v);
        }
    }
    if s.contains(v) {
        assert(super::refcount::chain(bm, v, 0) == Some(v));
    }
}

/// Occurrences in a strictly increasing listing.
proof fn lemma_occ_increasing(s: Seq<Value>, v: Value)
    requires
        forall|a: int, b: int| 0 <= a < b < s.len() ==> s[a] < s[b],
        s.contains(v),
    ensures
        occ(s, v) == 1,
    decreases s.len(),
{
    let d = s.drop_last();
    lemma_contains_last(s, v);
    lemma_occ_contains(d, v);
    if d.contains(v) {
        lemma_occ_increasing(d, v);
        let j = choose|j: int| 0 <= j < d.len() && d[j] == v;
        assert(s[j] < s[s.len() - 1]);
    }
}

/// A counted value that is not a view, that no view is read out of, and that block `i`
/// neither defines nor receives as an argument, arriving with one reference on every edge
/// into the block (it is live out of every predecessor): once counts are inserted, every
/// instruction of the block that needs a reference of it finds one, and at the block's end
/// it holds exactly one reference if the block hands it on, and none otherwise. One that
/// the block has no more use for is released on entry.
pub proof fn lemma_carried_value_balances(before: Func, after: Func, i: int, v: Value)
    requires
        before.wf(),
        rc_inserted(before, after),
        0 <= i < before.blocks.len(),
        exists|j: int| super::refcount::is_pred(before, j, i),
        forall|j: int| super::refcount::is_pred(before, j, i) ==> #[trigger] live_out(before)[j].contains(v),
        !before.blocks@[i].params@.contains(v),
        !super::refcount::moved_into(before, i).contains(v),
        counted_values(before).contains(v),
        !bases(before).dom().contains(v),
        no_view_of(bases(before), v),
        forall|j: int|
            0 <= j < before.blocks@[i].insts.len() ==> (#[trigger] before.blocks@[i].insts@[j]).result != Some(v)
                && !counts(before.blocks@[i].insts@[j], v),
    ensures
        run(after.blocks@[i].insts@, v, 1) == Some(
            if handed_on(before, i, v) {
                1int
            } else {
                0int
            },
        ),
{
    let f = before;
    let b = f.blocks@[i];
    let is = b.insts@;
    let p = counted_values(f);
    let bm = bases(f);
    let n = f.reprs.len() as nat;
    let tu = only_in(term_consumed(b.term), p);
    let start = live_out(f)[i].union(Set::new(|x: Value| tu.contains(x)));
    super::refcount::lemma_only_in(term_consumed(b.term), p);
    assert(start.contains(v) == handed_on(f, i, v));
    assert(plain(p, bm, n, v));
    assert(p != Set::<Value>::empty()) by {
        assert(p.contains(v));
    }
    assert(after.blocks@[i].insts@ == rc_block(f, i));
    let walked = walk(is, start, p, bm, n);
    let e: int = if handed_on(f, i, v) {
        1
    } else {
        0
    };
    let unused = only_in(b.params@, p.difference(walked.0));
    let ds = super::refcount::dying_set(f, i);
    let dying = super::vset::members_below(ds, n);
    let tail = only_in(tu, bm.dom()).map_values(|w: Value| retain(w));
    let rel_unused = unused.map_values(|w: Value| release(w));
    let rel_dying = dying.map_values(|w: Value| release(w));
    assert(rc_block(f, i) == rel_unused + rel_dying + walked.1 + tail);
    // Not a parameter, so never released as an unused one.
    super::refcount::lemma_only_in(b.params@, p.difference(walked.0));
    lemma_occ_contains(unused, v);
    lemma_run_release_each(unused, v, 1);
    // The live-in set is what the block hands on or uses, less what it defines.
    super::refcount::lemma_fixpoint_exists(f);
    let li = super::refcount::live_in(f);
    assert(li[i] == super::refcount::live_step(f, li, i));
    let raw = super::refcount::raw_out(f, li, i);
    let us = super::refcount::uses_of(b, p);
    let defs = super::refcount::defs_of(b);
    assert(!defs.contains(v)) by {
        if defs.contains(v) {
            let k = choose|k: int| 0 <= k < b.insts.len() && #[trigger] b.insts@[k].result == Some(v);
            assert(is[k].result != Some(v));
        }
    }
    lemma_closure_plain(raw.difference(defs).union(us.difference(defs)), bm, v);
    lemma_closure_plain(raw, bm, v);
    assert(live_out(f)[i] == super::refcount::out_of(f, li, i));
    assert(li[i].contains(v) == (raw.contains(v) || us.contains(v)));
    assert(live_out(f)[i].contains(v) == raw.contains(v));
    // A terminator's consumed operand is part of what it hands on.
    assert(tu.contains(v) ==> raw.contains(v));
    lemma_walk_live(is, start, p, bm, n, is.len(), v);
    assert(us.contains(v) == exists|j: int| 0 <= j < is.len() && #[trigger] uses(is[j], v)) by {
        if us.contains(v) {
            let k = choose|k: int|
                0 <= k < b.insts.len() && (only_in(consuming_raw(#[trigger] b.insts@[k].op), p).contains(v)
                    || only_in(borrowing_raw(b.insts@[k].op), p).contains(v));
            super::refcount::lemma_only_in(consuming_raw(is[k].op), p);
            super::refcount::lemma_only_in(borrowing_raw(is[k].op), p);
            lemma_classification(is[k].op);
            assert(uses(is[k], v));
        }
        if exists|j: int| 0 <= j < is.len() && #[trigger] uses(is[j], v) {
            let k = choose|j: int| 0 <= j < is.len() && #[trigger] uses(is[j], v);
            super::refcount::lemma_only_in(consuming_raw(is[k].op), p);
            super::refcount::lemma_only_in(borrowing_raw(is[k].op), p);
            lemma_classification(is[k].op);
            assert(only_in(consuming_raw(b.insts@[k].op), p).contains(v) || only_in(
                borrowing_raw(b.insts@[k].op),
                p,
            ).contains(v));
        }
    }
    assert(walked.0.contains(v) == li[i].contains(v));
    // Dying on entry is exactly not being live into the block.
    assert(ds.contains(v) == !li[i].contains(v));
    super::vset::lemma_members_below(ds, n);
    let r: int = if li[i].contains(v) {
        0
    } else {
        1
    };
    if li[i].contains(v) {
        lemma_occ_contains(dying, v);
    } else {
        lemma_occ_increasing(dying, v);
    }
    lemma_run_release_each(dying, v, 1);
    lemma_walk(is, start, p, bm, n, is.len(), v, 1 - r);
    lemma_run_view_retains(tu, bm, v, e);
    lemma_run_append(rel_unused, rel_dying, v, 1);
    lemma_run_append(rel_unused + rel_dying, walked.1, v, 1);
    lemma_run_append(rel_unused + rel_dying + walked.1, tail, v, 1);
}

/// The borrow pass never releases a view.
proof fn lemma_borrow_pass_view(ws: Seq<Value>, live: Set<Value>, rel: Seq<Value>, bm: Map<Value, Value>, n: nat, v: Value)
    requires
        bm.dom().contains(v),
    ensures
        occ(borrow_pass(ws, live, rel, bm, n).1, v) == occ(rel, v),
    decreases ws.len(),
{
    if ws.len() > 0 {
        lemma_borrow_pass_view(ws.drop_last(), live, rel, bm, n, v);
        let prev = borrow_pass(ws.drop_last(), live, rel, bm, n);
        lemma_occ_push(prev.1, ws.last(), v);
    }
}

/// The consume pass retains a view once for each time it is consumed.
proof fn lemma_consume_pass_view(ws: Seq<Value>, live: Set<Value>, ret: Seq<Value>, bm: Map<Value, Value>, n: nat, v: Value)
    requires
        bm.dom().contains(v),
    ensures
        occ(consume_pass(ws, live, ret, bm, n).1, v) == occ(ret, v) + occ(ws, v),
    decreases ws.len(),
{
    if ws.len() > 0 {
        lemma_consume_pass_view(ws.drop_last(), live, ret, bm, n, v);
        let prev = consume_pass(ws.drop_last(), live, ret, bm, n);
        lemma_occ_push(prev.1, ws.last(), v);
    }
}

/// The pieces of the walk's step over `inst`: the retains before it, and the values
/// released after it.
pub open spec fn step_retained(inst: Inst, live: Set<Value>, p: Set<Value>, bm: Map<Value, Value>, n: nat) -> Seq<Value> {
    let dead_result = match inst.result {
        Some(r) => p.contains(r) && !live.contains(r) && !bm.dom().contains(r),
        None => false,
    };
    let rel0: Seq<Value> = if dead_result {
        seq![inst.result.unwrap()]
    } else {
        Seq::empty()
    };
    let live1 = match inst.result {
        Some(r) => live.remove(r),
        None => live,
    };
    let borrowed = borrow_pass(only_in(borrowing_raw(inst.op), p), live1, rel0, bm, n);
    consume_pass(only_in(consuming_raw(inst.op), p), borrowed.0, Seq::empty(), bm, n).1
}

pub open spec fn step_released(inst: Inst, live: Set<Value>, p: Set<Value>, bm: Map<Value, Value>, n: nat) -> Seq<Value> {
    let dead_result = match inst.result {
        Some(r) => p.contains(r) && !live.contains(r) && !bm.dom().contains(r),
        None => false,
    };
    let rel0: Seq<Value> = if dead_result {
        seq![inst.result.unwrap()]
    } else {
        Seq::empty()
    };
    let live1 = match inst.result {
        Some(r) => live.remove(r),
        None => live,
    };
    borrow_pass(only_in(borrowing_raw(inst.op), p), live1, rel0, bm, n).1
}

/// A step, for a view: its retains hold the view once per consuming use, and it releases
/// nothing of it.
proof fn lemma_step_view(inst: Inst, live: Set<Value>, p: Set<Value>, bm: Map<Value, Value>, n: nat, v: Value)
    requires
        bm.dom().contains(v),
        p.contains(v),
    ensures
        step(inst, live, p, bm, n).1 == backwards(step_retained(inst, live, p, bm, n), |w: Value| retain(w))
            + seq![inst] + backwards(step_released(inst, live, p, bm, n), |w: Value| release(w)),
        occ(step_retained(inst, live, p, bm, n), v) == occ(consuming_raw(inst.op), v),
        !step_released(inst, live, p, bm, n).contains(v),
{
    let dead_result = match inst.result {
        Some(r) => p.contains(r) && !live.contains(r) && !bm.dom().contains(r),
        None => false,
    };
    let rel0: Seq<Value> = if dead_result {
        seq![inst.result.unwrap()]
    } else {
        Seq::empty()
    };
    let live1 = match inst.result {
        Some(r) => live.remove(r),
        None => live,
    };
    let bs = only_in(borrowing_raw(inst.op), p);
    let borrowed = borrow_pass(bs, live1, rel0, bm, n);
    lemma_borrow_pass_view(bs, live1, rel0, bm, n, v);
    lemma_consume_pass_view(only_in(consuming_raw(inst.op), p), borrowed.0, Seq::empty(), bm, n, v);
    lemma_occ_only_in(consuming_raw(inst.op), p, v);
    assert(occ(Seq::<Value>::empty(), v) == 0);
    assert(occ(rel0, v) == 0) by {
        if dead_result {
            assert(rel0.drop_last() =~= Seq::<Value>::empty());
            assert(occ(rel0.drop_last(), v) == 0);
            assert(rel0.last() != v);
        }
    }
    lemma_occ_contains(borrowed.1, v);
}

/// No instruction of the walk's output releases a view, unless the walked block did.
proof fn lemma_walk_view(is: Seq<Inst>, end: Set<Value>, p: Set<Value>, bm: Map<Value, Value>, n: nat, k: nat, v: Value)
    requires
        bm.dom().contains(v),
        p.contains(v),
        k <= is.len(),
        forall|j: int| is.len() - k <= j < is.len() ==> (#[trigger] is[j]).op != Op::Release(v),
    ensures
        forall|j: int|
            0 <= j < walk_back(is, end, p, bm, n, k).1.len() ==> (#[trigger] walk_back(is, end, p, bm, n, k).1[j]).op
                != Op::Release(v),
    decreases k,
{
    if k > 0 {
        lemma_walk_view(is, end, p, bm, n, (k - 1) as nat, v);
        let prev = walk_back(is, end, p, bm, n, (k - 1) as nat);
        let inst = is[is.len() - k];
        lemma_step_view(inst, prev.0, p, bm, n, v);
        let a = backwards(step_retained(inst, prev.0, p, bm, n), |w: Value| retain(w));
        let rs = step_released(inst, prev.0, p, bm, n);
        let c = backwards(rs, |w: Value| release(w));
        let whole = a + seq![inst] + c + prev.1;
        assert(walk_back(is, end, p, bm, n, k).1 == whole);
        assert forall|j: int| 0 <= j < whole.len() implies (#[trigger] whole[j]).op != Op::Release(v) by {
            if j < a.len() {
                assert(whole[j] == a[j]);
            } else if j == a.len() {
                assert(whole[j] == inst);
            } else if j < a.len() + 1 + c.len() {
                let w = rs[rs.len() - 1 - (j - a.len() - 1)];
                assert(whole[j] == release(w));
                assert(rs.contains(w));
            } else {
                assert(whole[j] == prev.1[j - a.len() - 1 - c.len()]);
            }
        }
    }
}

/// Retains of each value of `vs`, the last first.
pub open spec fn retains(vs: Seq<Value>) -> Seq<Inst> {
    backwards(vs, |w: Value| retain(w))
}

/// `s` holds `inst` right after a run of retains that holds `v` exactly `m` times.
pub open spec fn retained_before(s: Seq<Inst>, inst: Inst, v: Value, m: nat) -> bool {
    exists|pre: Seq<Inst>, vs: Seq<Value>, post: Seq<Inst>|
        #![trigger pre.len(), retains(vs), post.len()]
        {
            &&& s == pre + retains(vs) + seq![inst] + post
            &&& occ(vs, v) == m
        }
}

/// `s` ends with a run of retains, one of which is of `v`.
pub open spec fn ends_with_retain_of(s: Seq<Inst>, v: Value) -> bool {
    exists|vs: Seq<Value>|
        #[trigger] vs.contains(v) && vs.len() <= s.len() && s.skip(s.len() - vs.len()) == vs.map_values(
            |w: Value| retain(w),
        )
}

/// A view (the result of a projection of a counted value) owns nothing of its own. Once
/// counts are inserted into block `i`, which does not take it as a parameter and has no
/// release of it of its own, nothing releases it, and if the block's terminator hands it
/// on, the block ends with a run of retains that holds one of it.
pub proof fn lemma_view_never_released(before: Func, after: Func, i: int, v: Value)
    requires
        before.wf(),
        rc_inserted(before, after),
        0 <= i < before.blocks.len(),
        bases(before).dom().contains(v),
        !before.blocks@[i].params@.contains(v),
        forall|j: int| 0 <= j < before.blocks@[i].insts.len() ==> (#[trigger] before.blocks@[i].insts@[j]).op != Op::Release(v),
    ensures
        forall|j: int| 0 <= j < after.blocks@[i].insts.len() ==> (#[trigger] after.blocks@[i].insts@[j]).op != Op::Release(v),
        term_consumed(before.blocks@[i].term).contains(v) ==> ends_with_retain_of(after.blocks@[i].insts@, v),
{
    let f = before;
    let b = f.blocks@[i];
    let is = b.insts@;
    let p = counted_values(f);
    let bm = bases(f);
    let n = f.reprs.len() as nat;
    super::refcount::lemma_bases_within(f);
    assert(p.contains(v));
    assert(p != Set::<Value>::empty());
    assert(after.blocks@[i].insts@ == rc_block(f, i));
    let tu = only_in(term_consumed(b.term), p);
    let start = live_out(f)[i].union(Set::new(|x: Value| tu.contains(x)));
    let walked = walk(is, start, p, bm, n);
    let unused = only_in(b.params@, p.difference(walked.0));
    let dying = if exists|j: int| super::refcount::is_pred(f, j, i) {
        super::vset::members_below(super::refcount::dying_set(f, i), n)
    } else {
        Seq::empty()
    };
    let views_out = only_in(tu, bm.dom());
    let s1 = unused.map_values(|w: Value| release(w));
    let s2 = dying.map_values(|w: Value| release(w));
    let s4 = views_out.map_values(|w: Value| retain(w));
    let whole = s1 + s2 + walked.1 + s4;
    assert(rc_block(f, i) == whole);
    super::refcount::lemma_only_in(b.params@, p.difference(walked.0));
    super::refcount::lemma_only_in(term_consumed(b.term), p);
    super::refcount::lemma_only_in(tu, bm.dom());
    super::vset::lemma_members_below(super::refcount::dying_set(f, i), n);
    lemma_walk_view(is, start, p, bm, n, is.len(), v);
    assert forall|j: int| 0 <= j < whole.len() implies (#[trigger] whole[j]).op != Op::Release(v) by {
        if j < s1.len() {
            assert(whole[j] == release(unused[j]));
            assert(unused.contains(unused[j]));
        } else if j < s1.len() + s2.len() {
            assert(whole[j] == release(dying[j - s1.len()]));
            assert(dying.contains(dying[j - s1.len()]));
        } else if j < s1.len() + s2.len() + walked.1.len() {
            assert(whole[j] == walked.1[j - s1.len() - s2.len()]);
        } else {
            assert(whole[j] == s4[j - s1.len() - s2.len() - walked.1.len()]);
        }
    }
    if term_consumed(b.term).contains(v) {
        assert(views_out.contains(v));
        assert(whole.skip(whole.len() - views_out.len()) =~= views_out.map_values(|w: Value| retain(w)));
    }
}

/// A view that block `i`'s instruction `k` consumes gets a reference of its own for each
/// consuming use: once counts are inserted, the instruction is preceded by a run of retains
/// that holds the view exactly as many times as the instruction consumes it.
#[verifier::spinoff_prover]
#[verifier::rlimit(40)]
pub proof fn lemma_view_retained_for_each_use(before: Func, after: Func, i: int, k: int, v: Value)
    requires
        before.wf(),
        rc_inserted(before, after),
        0 <= i < before.blocks.len(),
        0 <= k < before.blocks@[i].insts.len(),
        bases(before).dom().contains(v),
    ensures
        retained_before(
            after.blocks@[i].insts@,
            before.blocks@[i].insts@[k],
            v,
            occ(owned_operands(before.blocks@[i].insts@[k].op), v),
        ),
{
    let f = before;
    let b = f.blocks@[i];
    let is = b.insts@;
    let p = counted_values(f);
    let bm = bases(f);
    let n = f.reprs.len() as nat;
    super::refcount::lemma_bases_within(f);
    assert(p.contains(v));
    assert(p != Set::<Value>::empty());
    assert(after.blocks@[i].insts@ == rc_block(f, i));
    let tu = only_in(term_consumed(b.term), p);
    let start = live_out(f)[i].union(Set::new(|x: Value| tu.contains(x)));
    let walked = walk(is, start, p, bm, n);
    let unused = only_in(b.params@, p.difference(walked.0));
    let dying = if exists|j: int| super::refcount::is_pred(f, j, i) {
        super::vset::members_below(super::refcount::dying_set(f, i), n)
    } else {
        Seq::empty()
    };
    let s1 = unused.map_values(|w: Value| release(w));
    let s2 = dying.map_values(|w: Value| release(w));
    let s4 = only_in(tu, bm.dom()).map_values(|w: Value| retain(w));
    assert(rc_block(f, i) == s1 + s2 + walked.1 + s4);
    let inst = is[k];
    let kd = (is.len() - k) as nat;
    let prev = walk_back(is, start, p, bm, n, (kd - 1) as nat);
    assert(is[is.len() - kd] == inst);
    lemma_step_view(inst, prev.0, p, bm, n, v);
    lemma_classification(inst.op);
    let vs = step_retained(inst, prev.0, p, bm, n);
    let rels = backwards(step_released(inst, prev.0, p, bm, n), |w: Value| release(w));
    assert(walk_back(is, start, p, bm, n, kd).1 == step(inst, prev.0, p, bm, n).1 + prev.1);
    lemma_walk_suffix(is, start, p, bm, n, kd, is.len());
    let x = choose|x: Seq<Inst>| walk_back(is, start, p, bm, n, is.len()).1 == x + walk_back(is, start, p, bm, n, kd).1;
    let pre = s1 + s2 + x;
    let post = rels + prev.1 + s4;
    assert(rc_block(f, i) =~= pre + retains(vs) + seq![inst] + post);
    assert(pre.len() >= 0 && post.len() >= 0 && retains(vs) == retains(vs));
}

/// A counted value a block hands on is live out of it.
proof fn lemma_handed_on_live(f: Func, i: int, v: Value)
    requires
        0 <= i < f.blocks.len(),
        counted_values(f).contains(v),
        no_view_of(bases(f), v),
    ensures
        handed_on(f, i, v) == live_out(f)[i].contains(v),
        live_out(f)[i].contains(v) == super::refcount::raw_out(f, super::refcount::live_in(f), i).contains(v),
{
    let raw = super::refcount::raw_out(f, super::refcount::live_in(f), i);
    lemma_closure_plain(raw, bases(f), v);
    assert(live_out(f)[i] == super::refcount::out_of(f, super::refcount::live_in(f), i));
}

/// Block `i` does not define `v` and has no counts of it of its own.
pub open spec fn foreign_to(b: super::ssa::Block, v: Value) -> bool {
    &&& !b.params@.contains(v)
    &&& forall|j: int| 0 <= j < b.insts.len() ==> (#[trigger] b.insts@[j]).result != Some(v) && !counts(b.insts@[j], v)
}

/// Block `i` has a predecessor, and `v` dies on entry to it.
pub open spec fn dies_entering(f: Func, i: int, v: Value) -> bool {
    (exists|j: int| super::refcount::is_pred(f, j, i)) && super::refcount::dying_set(f, i).contains(v)
}

/// A counted value that is not a view, that no view is read out of, and that block `i`
/// neither defines nor counts: entering the block live, it comes out holding one
/// reference if it is live out and none otherwise; entering it dying, it is released once;
/// entering it dead, the block leaves it alone.
proof fn lemma_entering_block(before: Func, after: Func, i: int, v: Value)
    requires
        before.wf(),
        rc_inserted(before, after),
        0 <= i < before.blocks.len(),
        counted_values(before).contains(v),
        !bases(before).dom().contains(v),
        no_view_of(bases(before), v),
        foreign_to(before.blocks@[i], v),
    ensures
        super::refcount::live_in(before)[i].contains(v) ==> run(after.blocks@[i].insts@, v, 1) == Some(
            if live_out(before)[i].contains(v) {
                1int
            } else {
                0int
            },
        ),
        !super::refcount::live_in(before)[i].contains(v) ==> !live_out(before)[i].contains(v),
        !super::refcount::live_in(before)[i].contains(v) && dies_entering(before, i, v) ==> run(
            after.blocks@[i].insts@,
            v,
            1,
        ) == Some(0int),
        !super::refcount::live_in(before)[i].contains(v) && !dies_entering(before, i, v) ==> run(
            after.blocks@[i].insts@,
            v,
            0,
        ) == Some(0int),
{
    let f = before;
    let b = f.blocks@[i];
    let is = b.insts@;
    let p = counted_values(f);
    let bm = bases(f);
    let n = f.reprs.len() as nat;
    let tu = only_in(term_consumed(b.term), p);
    let start = live_out(f)[i].union(Set::new(|x: Value| tu.contains(x)));
    super::refcount::lemma_only_in(term_consumed(b.term), p);
    lemma_handed_on_live(f, i, v);
    assert(start.contains(v) == live_out(f)[i].contains(v));
    assert(plain(p, bm, n, v));
    assert(p != Set::<Value>::empty()) by {
        assert(p.contains(v));
    }
    assert(after.blocks@[i].insts@ == rc_block(f, i));
    let walked = walk(is, start, p, bm, n);
    let unused = only_in(b.params@, p.difference(walked.0));
    let ds = super::refcount::dying_set(f, i);
    let has_pred = exists|j: int| super::refcount::is_pred(f, j, i);
    let dying = if has_pred {
        super::vset::members_below(ds, n)
    } else {
        Seq::empty()
    };
    let tail = only_in(tu, bm.dom()).map_values(|w: Value| retain(w));
    let rel_unused = unused.map_values(|w: Value| release(w));
    let rel_dying = dying.map_values(|w: Value| release(w));
    assert(rc_block(f, i) == rel_unused + rel_dying + walked.1 + tail);
    super::refcount::lemma_only_in(b.params@, p.difference(walked.0));
    lemma_occ_contains(unused, v);
    // Live into the block exactly when the walk finds it live at the top.
    super::refcount::lemma_fixpoint_exists(f);
    let li = super::refcount::live_in(f);
    assert(li[i] == super::refcount::live_step(f, li, i));
    let raw = super::refcount::raw_out(f, li, i);
    let us = super::refcount::uses_of(b, p);
    let defs = super::refcount::defs_of(b);
    assert(!defs.contains(v)) by {
        if defs.contains(v) {
            let k = choose|k: int| 0 <= k < b.insts.len() && #[trigger] b.insts@[k].result == Some(v);
            assert(is[k].result != Some(v));
        }
    }
    lemma_closure_plain(raw.difference(defs).union(us.difference(defs)), bm, v);
    assert(li[i].contains(v) == (raw.contains(v) || us.contains(v)));
    assert forall|j: int| is.len() - is.len() <= j < is.len() implies (#[trigger] is[j]).result != Some(v) && !counts(
        is[j],
        v,
    ) by {
        assert(0 <= j < b.insts.len());
    }
    lemma_walk_live(is, start, p, bm, n, is.len(), v);
    assert(us.contains(v) == exists|j: int| 0 <= j < is.len() && #[trigger] uses(is[j], v)) by {
        if us.contains(v) {
            let k = choose|k: int|
                0 <= k < b.insts.len() && (only_in(consuming_raw(#[trigger] b.insts@[k].op), p).contains(v)
                    || only_in(borrowing_raw(b.insts@[k].op), p).contains(v));
            super::refcount::lemma_only_in(consuming_raw(is[k].op), p);
            super::refcount::lemma_only_in(borrowing_raw(is[k].op), p);
            lemma_classification(is[k].op);
            assert(uses(is[k], v));
        }
        if exists|j: int| 0 <= j < is.len() && #[trigger] uses(is[j], v) {
            let k = choose|j: int| 0 <= j < is.len() && #[trigger] uses(is[j], v);
            super::refcount::lemma_only_in(consuming_raw(is[k].op), p);
            super::refcount::lemma_only_in(borrowing_raw(is[k].op), p);
            lemma_classification(is[k].op);
            assert(only_in(consuming_raw(b.insts@[k].op), p).contains(v) || only_in(
                borrowing_raw(b.insts@[k].op),
                p,
            ).contains(v));
        }
    }
    assert(walked.0.contains(v) == li[i].contains(v));
    super::vset::lemma_members_below(ds, n);
    let dies = dies_entering(f, i, v);
    if dies {
        lemma_occ_increasing(dying, v);
    } else {
        lemma_occ_contains(dying, v);
    }
    let c0: int = if li[i].contains(v) || dies {
        1
    } else {
        0
    };
    let e: int = if live_out(f)[i].contains(v) {
        1
    } else {
        0
    };
    let r: int = if dies {
        1
    } else {
        0
    };
    assert(li[i].contains(v) ==> !dies);
    lemma_run_release_each(unused, v, c0);
    lemma_run_release_each(dying, v, c0);
    lemma_walk(is, start, p, bm, n, is.len(), v, c0 - r);
    lemma_run_view_retains(tu, bm, v, e);
    lemma_run_view_retains(tu, bm, v, 0);
    lemma_run_append(rel_unused, rel_dying, v, c0);
    lemma_run_append(rel_unused + rel_dying, walked.1, v, c0);
    lemma_run_append(rel_unused + rel_dying + walked.1, tail, v, c0);
}

/// A terminator that leaves the function.
pub open spec fn exits(t: Term) -> bool {
    t is Ret || t is Throw
}

/// The arguments handed along edge `s.1` of the terminator of block `s.0`.
pub open spec fn edge_args(f: Func, s: (int, int)) -> Seq<Value> {
    edges(f.blocks@[s.0].term)[s.1].1
}

/// A route through `f`: blocks by position, each with the edge of its terminator taken
/// out of it. Each edge leads to the next block, and the last block leaves the function.
pub open spec fn is_route(f: Func, path: Seq<(int, int)>) -> bool {
    &&& path.len() >= 1
    &&& forall|t: int| 0 <= t < path.len() ==> 0 <= (#[trigger] path[t]).0 < f.blocks.len()
    &&& forall|t: int|
        0 <= t < path.len() - 1 ==> {
            &&& 0 <= (#[trigger] path[t]).1 < edges(f.blocks@[path[t].0].term).len()
            &&& edges(f.blocks@[path[t].0].term)[path[t].1].0 == f.blocks@[path[t + 1].0].id
        }
    &&& exits(f.blocks@[path.last().0].term)
}

/// The references `v` holds at the end of a route of `after` (which has `f`'s blocks with
/// counts inserted), given `c` at the end of the instructions of its block `t`: the
/// terminator takes one for each time the edge taken hands `v` on, each later block runs,
/// and the last terminator takes one for each time it returns or throws `v`. `None` if a
/// step needs a reference that is not there.
pub open spec fn onward(f: Func, after: Func, path: Seq<(int, int)>, v: Value, t: int, c: int) -> Option<int>
    decreases path.len() - t,
{
    if t < 0 || t >= path.len() - 1 {
        let m = occ(term_consumed(f.blocks@[path.last().0].term), v) as int;
        if m > 0 && c < m {
            None
        } else {
            Some(c - m)
        }
    } else {
        let m = occ(edge_args(f, path[t]), v) as int;
        if m > 0 && c < m {
            None
        } else {
            match run(after.blocks@[path[t + 1].0].insts@, v, c - m) {
                Some(c2) => onward(f, after, path, v, t + 1, c2),
                None => None,
            }
        }
    }
}

/// What a route needs of `v` for its counts to balance: an edge hands it on at most once,
/// and not into a block that uses it directly too; and where it reaches a block alive that
/// has no use for it, it dies on entry there, which takes it being live out of every
/// predecessor of that block and handed to it as an argument by none.
pub open spec fn route_ok(f: Func, path: Seq<(int, int)>, v: Value) -> bool {
    forall|t: int|
        0 <= t < path.len() - 1 ==> {
            let m = occ(edge_args(f, #[trigger] path[t]), v);
            let next = path[t + 1].0;
            &&& m <= 1
            &&& m == 1 ==> !super::refcount::live_in(f)[next].contains(v)
            &&& (live_out(f)[path[t].0].contains(v) && m == 0 && !super::refcount::live_in(f)[next].contains(v))
                ==> dies_entering(f, next, v)
        }
}

proof fn lemma_occ_one(x: Value, v: Value)
    ensures
        occ(seq![x], v) == if x == v {
            1nat
        } else {
            0nat
        },
{
    assert(seq![x] == Seq::<Value>::empty().push(x));
    lemma_occ_push(Seq::<Value>::empty(), x, v);
}

proof fn lemma_onward(
    f: Func,
    after: Func,
    path: Seq<(int, int)>,
    v: Value,
    t: int,
    def_block: int,
)
    requires
        f.wf(),
        rc_inserted(f, after),
        is_route(f, path),
        route_ok(f, path, v),
        0 <= t < path.len(),
        counted_values(f).contains(v),
        !bases(f).dom().contains(v),
        no_view_of(bases(f), v),
        forall|u: int| 0 < u < path.len() ==> (#[trigger] path[u]).0 != def_block,
        forall|i: int| 0 <= i < f.blocks.len() && i != def_block ==> foreign_to(#[trigger] f.blocks@[i], v),
    ensures
        onward(f, after, path, v, t, if live_out(f)[path[t].0].contains(v) {
            1int
        } else {
            0int
        }) == Some(0int),
    decreases path.len() - t,
{
    let cur = path[t].0;
    let c: int = if live_out(f)[cur].contains(v) {
        1
    } else {
        0
    };
    let p = counted_values(f);
    super::refcount::lemma_fixpoint_exists(f);
    let li = super::refcount::live_in(f);
    lemma_handed_on_live(f, cur, v);
    let raw = super::refcount::raw_out(f, li, cur);
    let term = f.blocks@[cur].term;
    if t >= path.len() - 1 {
        assert(edges(term).len() == 0);
        match term {
            Term::Ret(Some(x)) => lemma_occ_one(x, v),
            Term::Throw(x) => lemma_occ_one(x, v),
            _ => {},
        }
        assert(raw.contains(v) == term_consumed(term).contains(v));
        lemma_occ_contains(term_consumed(term), v);
    } else {
        let k = path[t].1;
        let next = path[t + 1].0;
        let args = edge_args(f, path[t]);
        let m = occ(args, v);
        assert(0 <= k < edges(term).len() && edges(term)[k].0 == f.blocks@[next].id);
        assert(0 <= next < f.blocks.len());
        super::refcount::lemma_pos_of(f, next);
        assert(f.blocks@[next] == f.blocks@[path[t + 1].0]);
        assert(foreign_to(f.blocks@[next], v));
        lemma_entering_block(f, after, next, v);
        lemma_occ_contains(args, v);
        assert(super::refcount::is_pred(f, cur, next));
        if c == 0 {
            // Dead at the end of this block: not handed on, not live into the next block,
            // and not dying there, since this block is a predecessor without it.
            assert(m == 0) by {
                if args.contains(v) {
                    assert(raw.contains(v));
                }
            }
            assert(!li[next].contains(v)) by {
                if li[next].contains(v) {
                    assert(li[super::refcount::pos_of(f, edges(term)[k].0)].contains(v));
                    assert(raw.contains(v));
                }
            }
            assert(!dies_entering(f, next, v));
        } else if m == 1 {
            // Handed on as an argument: the next block takes it over as a parameter.
            assert(super::refcount::moved_into(f, next).contains(v)) by {
                assert(edges(f.blocks@[cur].term)[k].1.contains(v));
            }
            assert(!dies_entering(f, next, v));
        }
        lemma_onward(f, after, path, v, t + 1, def_block);
    }
}

/// Along a route from the definition of a counted value (not a view, and not something a
/// view is read out of) to an exit of the function, once counts are inserted: starting
/// from the one reference it is produced with, and counting retains up and releases,
/// consuming uses and the terminators that hand it on down, every step finds the
/// references it needs and the value holds none at the exit. It is released exactly once,
/// and nothing uses it after that. The value is defined once, nothing counts it before the
/// pass, and the route does not come back to the block that defines it.
pub proof fn lemma_route_balances(before: Func, after: Func, path: Seq<(int, int)>, d: int, v: Value)
    requires
        before.wf(),
        rc_inserted(before, after),
        is_route(before, path),
        route_ok(before, path, v),
        0 <= d < before.blocks@[path[0].0].insts.len(),
        before.blocks@[path[0].0].insts@[d].result == Some(v),
        !uses(before.blocks@[path[0].0].insts@[d], v),
        counted_values(before).contains(v),
        !bases(before).dom().contains(v),
        no_view_of(bases(before), v),
        forall|u: int| 0 < u < path.len() ==> (#[trigger] path[u]).0 != path[0].0,
        forall|i: int|
            0 <= i < before.blocks.len() && i != path[0].0 ==> foreign_to(#[trigger] before.blocks@[i], v),
        forall|j: int|
            d < j < before.blocks@[path[0].0].insts.len() ==> (#[trigger] before.blocks@[path[0].0].insts@[j]).result
                != Some(v) && !counts(before.blocks@[path[0].0].insts@[j], v),
    ensures
        exists|pre: Seq<Inst>, post: Seq<Inst>|
            #![trigger pre.len(), post.len()]
            {
                &&& after.blocks@[path[0].0].insts@ == pre + seq![before.blocks@[path[0].0].insts@[d]] + post
                &&& match run(post, v, 1) {
                    Some(c) => onward(before, after, path, v, 0, c) == Some(0int),
                    None => false,
                }
            },
{
    let i = path[0].0;
    assert(0 <= i < before.blocks.len());
    lemma_defined_value_balances(before, after, i, d, v);
    let (pre, post) = choose|pre: Seq<Inst>, post: Seq<Inst>|
        {
            &&& after.blocks@[i].insts@ == pre + seq![before.blocks@[i].insts@[d]] + post
            &&& run(post, v, 1) == Some(
                if handed_on(before, i, v) {
                    1int
                } else {
                    0int
                },
            )
        };
    lemma_handed_on_live(before, i, v);
    lemma_onward(before, after, path, v, 0, i);
    assert(pre.len() >= 0 && post.len() >= 0);
}

/// The operands an op takes ownership of: the elements of a tuple or list it builds, the
/// field values of a record, the captures of a closure, and the arguments of a call, direct,
/// native or through a closure. Every other operand is only read.
pub open spec fn owned_operands(op: Op) -> Seq<Value> {
    match op {
        Op::MakeTuple(elems) => elems@,
        Op::MakeList(elems) => elems@,
        Op::MakeRecord { fields, .. } => fields@.map_values(|f: (String, Value)| f.1),
        Op::MakeClosure { captures, .. } => captures@,
        Op::Call { args, .. } => args@,
        Op::Native { args, .. } => args@,
        Op::CallClosure { args, .. } => args@,
        _ => Seq::empty(),
    }
}

/// An operand stored into an aggregate, or passed to a call, that is still needed after the
/// instruction (a later instruction of the block uses it, or the block hands it on) gets a
/// reference of its own: once counts are inserted, the instruction is preceded by a run of
/// retains holding the value once for each time the instruction takes it. An instruction
/// that only reads a value (a field read, a lookup, a test, arithmetic) is preceded by no
/// retain of it. The value is counted, not a view, and no view is read out of it; it is not
/// the instruction's result, and no later instruction of the block defines or counts it.
#[verifier::spinoff_prover]
#[verifier::rlimit(40)]
pub proof fn lemma_owned_operand_retained(before: Func, after: Func, i: int, k: int, v: Value)
    requires
        before.wf(),
        rc_inserted(before, after),
        0 <= i < before.blocks.len(),
        0 <= k < before.blocks@[i].insts.len(),
        counted_values(before).contains(v),
        !bases(before).dom().contains(v),
        no_view_of(bases(before), v),
        before.blocks@[i].insts@[k].result != Some(v),
        forall|j: int|
            k < j < before.blocks@[i].insts.len() ==> (#[trigger] before.blocks@[i].insts@[j]).result != Some(v)
                && !counts(before.blocks@[i].insts@[j], v),
        handed_on(before, i, v) || exists|j: int|
            k < j < before.blocks@[i].insts.len() && #[trigger] uses(before.blocks@[i].insts@[j], v),
    ensures
        retained_before(
            after.blocks@[i].insts@,
            before.blocks@[i].insts@[k],
            v,
            occ(owned_operands(before.blocks@[i].insts@[k].op), v),
        ),
{
    let f = before;
    let b = f.blocks@[i];
    let is = b.insts@;
    let p = counted_values(f);
    let bm = bases(f);
    let n = f.reprs.len() as nat;
    assert(plain(p, bm, n, v));
    assert(p != Set::<Value>::empty()) by {
        assert(p.contains(v));
    }
    assert(after.blocks@[i].insts@ == rc_block(f, i));
    let tu = only_in(term_consumed(b.term), p);
    let start = live_out(f)[i].union(Set::new(|x: Value| tu.contains(x)));
    super::refcount::lemma_only_in(term_consumed(b.term), p);
    assert(start.contains(v) == handed_on(f, i, v));
    let walked = walk(is, start, p, bm, n);
    let unused = only_in(b.params@, p.difference(walked.0));
    let dying = if exists|j: int| super::refcount::is_pred(f, j, i) {
        super::vset::members_below(super::refcount::dying_set(f, i), n)
    } else {
        Seq::empty()
    };
    let s1 = unused.map_values(|w: Value| release(w));
    let s2 = dying.map_values(|w: Value| release(w));
    let s4 = only_in(tu, bm.dom()).map_values(|w: Value| retain(w));
    assert(rc_block(f, i) == s1 + s2 + walked.1 + s4);
    let inst = is[k];
    let kd = (is.len() - k) as nat;
    let prev = walk_back(is, start, p, bm, n, (kd - 1) as nat);
    assert(is[is.len() - kd] == inst);
    // Live after the instruction.
    assert forall|j: int| is.len() - (kd - 1) <= j < is.len() implies (#[trigger] is[j]).result != Some(v) && !counts(
        is[j],
        v,
    ) by {
        assert(k < j);
    }
    lemma_walk_live(is, start, p, bm, n, (kd - 1) as nat, v);
    if !start.contains(v) {
        let j = choose|j: int| k < j < b.insts.len() && #[trigger] uses(b.insts@[j], v);
        assert(is.len() - (kd - 1) <= j < is.len() && uses(is[j], v));
    }
    assert(prev.0.contains(v));
    // The step at the instruction: its retains hold `v` once per time it takes `v`.
    let dead_result = match inst.result {
        Some(r) => p.contains(r) && !prev.0.contains(r) && !bm.dom().contains(r),
        None => false,
    };
    let rel0: Seq<Value> = if dead_result {
        seq![inst.result.unwrap()]
    } else {
        Seq::empty()
    };
    let live1 = match inst.result {
        Some(r) => prev.0.remove(r),
        None => prev.0,
    };
    let bs = only_in(borrowing_raw(inst.op), p);
    let cs = only_in(consuming_raw(inst.op), p);
    let borrowed = borrow_pass(bs, live1, rel0, bm, n);
    lemma_borrow_pass(bs, live1, rel0, bm, n, v);
    lemma_consume_pass(cs, borrowed.0, Seq::empty(), bm, n, v);
    lemma_occ_only_in(consuming_raw(inst.op), p, v);
    assert(occ(Seq::<Value>::empty(), v) == 0);
    lemma_classification(inst.op);
    let vs = step_retained(inst, prev.0, p, bm, n);
    assert(occ(vs, v) == occ(owned_operands(inst.op), v));
    let rels = backwards(step_released(inst, prev.0, p, bm, n), |w: Value| release(w));
    assert(step(inst, prev.0, p, bm, n).1 == retains(vs) + seq![inst] + rels);
    assert(walk_back(is, start, p, bm, n, kd).1 == step(inst, prev.0, p, bm, n).1 + prev.1);
    lemma_walk_suffix(is, start, p, bm, n, kd, is.len());
    let x = choose|x: Seq<Inst>| walk_back(is, start, p, bm, n, is.len()).1 == x + walk_back(is, start, p, bm, n, kd).1;
    let pre = s1 + s2 + x;
    let post = rels + prev.1 + s4;
    assert(rc_block(f, i) =~= pre + retains(vs) + seq![inst] + post);
    assert(pre.len() >= 0 && post.len() >= 0 && retains(vs) == retains(vs));
}

} // verus!
