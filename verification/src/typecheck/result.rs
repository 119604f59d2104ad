//! What the type checker learned, keyed by expression.
//!
//! `expr_types` is the keystone: lowering reads every expression's type from here and
//! re-derives nothing, so nothing downstream has to guess a type and fall back to erasure.

use super::{ExprId, TyId};
use std::collections::HashMap;
use vstd::prelude::*;

verus! {

broadcast use vstd::std_specs::hash::group_hash_axioms;

/// What the type checker learned, keyed by expression. `R` is how a call was resolved.
#[derive(Debug)]
pub struct TypecheckResult<R> {
    expr_types: HashMap<ExprId, TyId>,
    /// The expressions that have a type, each once, in the order they got one.
    typed: Vec<ExprId>,
    resolved_calls: HashMap<ExprId, R>,
    /// A lambda's inferred signature, as an arrow.
    resolved_lambdas: HashMap<ExprId, TyId>,
    /// The error type a `try` can catch: the union of what its body throws.
    caught_types: HashMap<ExprId, TyId>,
    /// A generic call's solved type arguments, by parameter name.
    generic_args: HashMap<ExprId, Vec<(String, TyId)>>,
    /// A `let`'s declared type, keyed on its initialiser.
    declared_types: HashMap<ExprId, TyId>,
}

/// A map lookup, as an `Option`.
pub open spec fn lookup<V>(m: Map<ExprId, V>, e: ExprId) -> Option<V> {
    if m.contains_key(e) {
        Some(m[e])
    } else {
        None
    }
}

impl<R> TypecheckResult<R> {
    /// Every expression's type.
    pub closed spec fn types_map(&self) -> Map<ExprId, TyId> {
        self.expr_types@
    }

    pub closed spec fn calls_map(&self) -> Map<ExprId, R> {
        self.resolved_calls@
    }

    pub closed spec fn lambdas_map(&self) -> Map<ExprId, TyId> {
        self.resolved_lambdas@
    }

    pub closed spec fn caught_map(&self) -> Map<ExprId, TyId> {
        self.caught_types@
    }

    pub closed spec fn generics_map(&self) -> Map<ExprId, Seq<(String, TyId)>> {
        self.generic_args@.map_values(|v: Vec<(String, TyId)>| v@)
    }

    pub closed spec fn declared_map(&self) -> Map<ExprId, TyId> {
        self.declared_types@
    }

    /// The typed expressions are listed once each.
    pub closed spec fn wf(&self) -> bool {
        &&& self.typed@.no_duplicates()
        &&& forall|e: ExprId| self.typed@.contains(e) <==> self.expr_types@.contains_key(e)
    }

    /// Nothing learned yet.
    pub fn new() -> (r: Self)
        ensures
            r.wf(),
            r.types_map() == Map::<ExprId, TyId>::empty(),
            r.calls_map() == Map::<ExprId, R>::empty(),
            r.lambdas_map() == Map::<ExprId, TyId>::empty(),
            r.caught_map() == Map::<ExprId, TyId>::empty(),
            r.generics_map() == Map::<ExprId, Seq<(String, TyId)>>::empty(),
            r.declared_map() == Map::<ExprId, TyId>::empty(),
    {
        let r = TypecheckResult {
            expr_types: HashMap::new(),
            typed: Vec::new(),
            resolved_calls: HashMap::new(),
            resolved_lambdas: HashMap::new(),
            caught_types: HashMap::new(),
            generic_args: HashMap::new(),
            declared_types: HashMap::new(),
        };
        assert(r.generics_map() =~= Map::<ExprId, Seq<(String, TyId)>>::empty());
        r
    }

    pub fn ty(&self, e: ExprId) -> (t: Option<TyId>)
        ensures
            t == lookup(self.types_map(), e),
    {
        match self.expr_types.get(&e) {
            Some(t) => Some(*t),
            None => None,
        }
    }

    /// Every expression's type, each expression once. The IR walks these to assign a
    /// representation to each.
    pub fn types(&self) -> (r: Vec<(ExprId, TyId)>)
        requires
            self.wf(),
        ensures
            r.len() == self.types_map().len(),
            forall|i: int, j: int| 0 <= i < j < r.len() ==> r@[i].0 != r@[j].0,
            forall|e: ExprId, t: TyId| r@.contains((e, t)) <==> lookup(self.types_map(), e) == Some(t),
    {
        let mut out: Vec<(ExprId, TyId)> = Vec::new();
        let mut i: usize = 0;
        while i < self.typed.len()
            invariant
                i <= self.typed.len(),
                self.wf(),
                out.len() == i,
                forall|k: int| 0 <= k < i ==> (#[trigger] out@[k]).0 == self.typed@[k],
                forall|k: int|
                    0 <= k < i ==> self.expr_types@.contains_key((#[trigger] out@[k]).0) && out@[k].1
                        == self.expr_types@[out@[k].0],
            decreases self.typed.len() - i,
        {
            let e = self.typed[i];
            assert(self.typed@.contains(e));
            let t = *self.expr_types.get(&e).unwrap();
            out.push((e, t));
            i += 1;
        }
        proof {
            assert forall|e: ExprId, t: TyId| out@.contains((e, t)) <==> lookup(self.types_map(), e) == Some(t) by {
                if out@.contains((e, t)) {
                    let k = choose|k: int| 0 <= k < out.len() && out@[k] == (e, t);
                    assert(out@[k].0 == e);
                }
                if lookup(self.types_map(), e) == Some(t) {
                    assert(self.typed@.contains(e));
                    let k = choose|k: int| 0 <= k < self.typed.len() && self.typed@[k] == e;
                    assert(out@[k].0 == e);
                    assert(out@[k] == (e, t));
                }
            }
            assert(self.typed@.to_set() =~= self.expr_types@.dom());
            self.typed@.unique_seq_to_set();
        }
        out
    }

    pub fn call(&self, e: ExprId) -> (r: Option<&R>)
        ensures
            match r {
                Some(x) => lookup(self.calls_map(), e) == Some(*x),
                None => lookup(self.calls_map(), e) is None,
            },
    {
        self.resolved_calls.get(&e)
    }

    pub fn lambda(&self, e: ExprId) -> (t: Option<TyId>)
        ensures
            t == lookup(self.lambdas_map(), e),
    {
        match self.resolved_lambdas.get(&e) {
            Some(t) => Some(*t),
            None => None,
        }
    }

    /// A generic call's solved type arguments.
    pub fn generics(&self, e: ExprId) -> (r: Option<&[(String, TyId)]>)
        ensures
            match r {
                Some(x) => lookup(self.generics_map(), e) == Some(x@),
                None => lookup(self.generics_map(), e) is None,
            },
    {
        match self.generic_args.get(&e) {
            Some(v) => Some(v.as_slice()),
            None => None,
        }
    }

    /// The declared type of the `let` whose initialiser this is.
    pub fn declared(&self, e: ExprId) -> (t: Option<TyId>)
        ensures
            t == lookup(self.declared_map(), e),
    {
        match self.declared_types.get(&e) {
            Some(t) => Some(*t),
            None => None,
        }
    }

    pub fn set_declared(&mut self, e: ExprId, t: TyId)
        ensures
            final(self).declared_map() == old(self).declared_map().insert(e, t),
            final(self).types_map() == old(self).types_map(),
            final(self).calls_map() == old(self).calls_map(),
            final(self).lambdas_map() == old(self).lambdas_map(),
            final(self).caught_map() == old(self).caught_map(),
            final(self).generics_map() == old(self).generics_map(),
            final(self).wf() == old(self).wf(),
    {
        self.declared_types.insert(e, t);
    }

    /// The error type a `try` expression's handler receives.
    pub fn caught(&self, e: ExprId) -> (t: Option<TyId>)
        ensures
            t == lookup(self.caught_map(), e),
    {
        match self.caught_types.get(&e) {
            Some(t) => Some(*t),
            None => None,
        }
    }

    /// How many expressions have a type.
    pub fn len(&self) -> (n: usize)
        ensures
            n == self.types_map().len(),
    {
        self.expr_types.len()
    }

    pub fn is_empty(&self) -> (b: bool)
        ensures
            b == (self.types_map().len() == 0),
    {
        proof {
            if self.expr_types@.len() == 0 {
                self.expr_types@.dom().lemma_len0_is_empty();
                assert(self.expr_types@.dom() =~= Set::<ExprId>::empty());
            }
        }
        self.expr_types.is_empty()
    }

    pub fn set_ty(&mut self, e: ExprId, t: TyId)
        requires
            old(self).wf(),
        ensures
            final(self).wf(),
            final(self).types_map() == old(self).types_map().insert(e, t),
            final(self).calls_map() == old(self).calls_map(),
            final(self).lambdas_map() == old(self).lambdas_map(),
            final(self).caught_map() == old(self).caught_map(),
            final(self).generics_map() == old(self).generics_map(),
            final(self).declared_map() == old(self).declared_map(),
    {
        if !self.expr_types.contains_key(&e) {
            self.typed.push(e);
        }
        self.expr_types.insert(e, t);
        proof {
            assert forall|x: ExprId| self.typed@.contains(x) <==> self.expr_types@.contains_key(x) by {
                if old(self).typed@.contains(x) {
                    let k = choose|k: int| 0 <= k < old(self).typed.len() && old(self).typed@[k] == x;
                    assert(self.typed@[k] == x);
                }
                if self.typed@.contains(x) && x != e {
                    let k = choose|k: int| 0 <= k < self.typed.len() && self.typed@[k] == x;
                    if k < old(self).typed.len() {
                        assert(old(self).typed@[k] == x);
                    }
                }
                if x == e && !old(self).expr_types@.contains_key(e) {
                    assert(self.typed@[self.typed.len() - 1] == e);
                }
            }
            if !old(self).expr_types@.contains_key(e) {
                assert forall|i: int, j: int|
                    0 <= i < j < self.typed.len() implies self.typed@[i] != self.typed@[j] by {
                    if j == self.typed.len() - 1 {
                        assert(old(self).typed@.contains(self.typed@[i]));
                    } else {
                        assert(old(self).typed@[i] == self.typed@[i]);
                        assert(old(self).typed@[j] == self.typed@[j]);
                    }
                }
            }
        }
    }

    pub fn set_call(&mut self, e: ExprId, r: R)
        ensures
            final(self).calls_map() == old(self).calls_map().insert(e, r),
            final(self).types_map() == old(self).types_map(),
            final(self).lambdas_map() == old(self).lambdas_map(),
            final(self).caught_map() == old(self).caught_map(),
            final(self).generics_map() == old(self).generics_map(),
            final(self).declared_map() == old(self).declared_map(),
            final(self).wf() == old(self).wf(),
    {
        self.resolved_calls.insert(e, r);
    }

    pub fn set_generics(&mut self, e: ExprId, args: Vec<(String, TyId)>)
        ensures
            final(self).generics_map() == old(self).generics_map().insert(e, args@),
            final(self).types_map() == old(self).types_map(),
            final(self).calls_map() == old(self).calls_map(),
            final(self).lambdas_map() == old(self).lambdas_map(),
            final(self).caught_map() == old(self).caught_map(),
            final(self).declared_map() == old(self).declared_map(),
            final(self).wf() == old(self).wf(),
    {
        let ghost a = args@;
        self.generic_args.insert(e, args);
        assert(self.generics_map() =~= old(self).generics_map().insert(e, a));
    }

    pub fn set_caught(&mut self, e: ExprId, t: TyId)
        ensures
            final(self).caught_map() == old(self).caught_map().insert(e, t),
            final(self).types_map() == old(self).types_map(),
            final(self).calls_map() == old(self).calls_map(),
            final(self).lambdas_map() == old(self).lambdas_map(),
            final(self).generics_map() == old(self).generics_map(),
            final(self).declared_map() == old(self).declared_map(),
            final(self).wf() == old(self).wf(),
    {
        self.caught_types.insert(e, t);
    }

    pub fn set_lambda(&mut self, e: ExprId, t: TyId)
        ensures
            final(self).lambdas_map() == old(self).lambdas_map().insert(e, t),
            final(self).types_map() == old(self).types_map(),
            final(self).calls_map() == old(self).calls_map(),
            final(self).caught_map() == old(self).caught_map(),
            final(self).generics_map() == old(self).generics_map(),
            final(self).declared_map() == old(self).declared_map(),
            final(self).wf() == old(self).wf(),
    {
        self.resolved_lambdas.insert(e, t);
    }
}

/// What is recorded for an expression reads back, and recording it changes the answer for
/// no other expression.
pub proof fn lemma_recorded_type_reads_back(before: Map<ExprId, TyId>, after: Map<ExprId, TyId>, e: ExprId, t: TyId)
    requires
        after == before.insert(e, t),
    ensures
        lookup(after, e) == Some(t),
        forall|other: ExprId| other != e ==> lookup(after, other) == lookup(before, other),
{
}

} // verus!
