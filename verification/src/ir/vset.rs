//! A set of SSA values drawn from one function, as a bitmap over its value numbers.
//!
//! A function's values are numbered densely from 0, so a set of them is a vector of flags
//! indexed by value. Copying, comparing and listing such a set in increasing order are all
//! plain loops, and the order of a listing does not depend on hashing.

use super::ssa::Value;
use vstd::prelude::*;

verus! {

/// The number of values below `k` that `s` lacks.
pub open spec fn missing(s: Set<Value>, k: nat) -> nat
    decreases k,
{
    if k == 0 {
        0
    } else {
        missing(s, (k - 1) as nat) + if s.contains((k - 1) as Value) {
            0nat
        } else {
            1nat
        }
    }
}

/// The members of `s` below `k`, in increasing order.
pub open spec fn members_below(s: Set<Value>, k: nat) -> Seq<Value>
    decreases k,
{
    if k == 0 {
        Seq::empty()
    } else {
        let rest = members_below(s, (k - 1) as nat);
        if s.contains((k - 1) as Value) {
            rest.push((k - 1) as Value)
        } else {
            rest
        }
    }
}

/// A larger set lacks no more values.
pub proof fn lemma_missing_subset(s: Set<Value>, t: Set<Value>, k: nat)
    requires
        s.subset_of(t),
        k <= u32::MAX as nat + 1,
    ensures
        missing(t, k) <= missing(s, k),
        (exists|v: Value| v < k && t.contains(v) && !s.contains(v)) ==> missing(t, k) < missing(s, k),
    decreases k,
{
    if k > 0 {
        lemma_missing_subset(s, t, (k - 1) as nat);
        if exists|v: Value| v < k && t.contains(v) && !s.contains(v) {
            let v = choose|v: Value| v < k && t.contains(v) && !s.contains(v);
            if v < k - 1 {
                assert(exists|w: Value| w < (k - 1) as nat && t.contains(w) && !s.contains(w));
            }
        }
    }
}


pub struct ValueSet {
    bits: Vec<bool>,
}

impl View for ValueSet {
    type V = Set<Value>;

    closed spec fn view(&self) -> Set<Value> {
        Set::new(|v: Value| v < self.bits.len() && self.bits@[v as int])
    }
}

impl ValueSet {
    /// The values this set may hold: those below this bound.
    pub closed spec fn universe(&self) -> nat {
        self.bits.len() as nat
    }

    pub open spec fn wf(&self) -> bool {
        self.universe() <= u32::MAX as nat + 1
    }

    /// The empty set over values below `n`.
    pub fn new(n: usize) -> (s: ValueSet)
        requires
            n <= u32::MAX as nat + 1,
        ensures
            s.wf(),
            s.universe() == n,
            s@ == Set::<Value>::empty(),
    {
        let mut bits: Vec<bool> = Vec::new();
        let mut i: usize = 0;
        while i < n
            invariant
                i <= n,
                bits.len() == i,
                forall|j: int| 0 <= j < i ==> !bits@[j],
            decreases n - i,
        {
            bits.push(false);
            i += 1;
        }
        let s = ValueSet { bits };
        assert(s@ =~= Set::<Value>::empty());
        s
    }

    pub fn size(&self) -> (n: usize)
        ensures
            n == self.universe(),
    {
        self.bits.len()
    }

    pub fn contains(&self, v: Value) -> (b: bool)
        ensures
            b == self@.contains(v),
    {
        (v as usize) < self.bits.len() && self.bits[v as usize]
    }

    /// Add `v`; returns whether it was absent.
    pub fn insert(&mut self, v: Value) -> (added: bool)
        requires
            (v as nat) < old(self).universe(),
        ensures
            final(self).universe() == old(self).universe(),
            final(self).wf() == old(self).wf(),
            final(self)@ == old(self)@.insert(v),
            added == !old(self)@.contains(v),
    {
        let added = !self.bits[v as usize];
        self.bits.set(v as usize, true);
        assert(self@ =~= old(self)@.insert(v));
        added
    }

    pub fn remove(&mut self, v: Value)
        ensures
            final(self).universe() == old(self).universe(),
            final(self).wf() == old(self).wf(),
            final(self)@ == old(self)@.remove(v),
    {
        if (v as usize) < self.bits.len() {
            self.bits.set(v as usize, false);
        }
        assert(self@ =~= old(self)@.remove(v));
    }

    pub fn copy(&self) -> (c: ValueSet)
        ensures
            c.universe() == self.universe(),
            c.wf() == self.wf(),
            c@ == self@,
    {
        let c = ValueSet { bits: self.bits.clone() };
        assert(c@ =~= self@);
        c
    }

    /// Whether the two sets hold the same values.
    pub fn same(&self, other: &ValueSet) -> (b: bool)
        requires
            self.wf(),
            self.universe() == other.universe(),
        ensures
            b == (self@ == other@),
    {
        let mut i: usize = 0;
        while i < self.bits.len()
            invariant
                i <= self.bits.len(),
                self.wf(),
                self.bits.len() == other.bits.len(),
                forall|j: int| 0 <= j < i ==> self.bits@[j] == other.bits@[j],
            decreases self.bits.len() - i,
        {
            if self.bits[i] != other.bits[i] {
                proof {
                    let v = i as Value;
                    assert(self@.contains(v) != other@.contains(v));
                }
                return false;
            }
            i += 1;
        }
        assert forall|v: Value| self@.contains(v) == other@.contains(v) by {
            if v < self.bits.len() {
                assert(self.bits@[v as int] == other.bits@[v as int]);
            }
        }
        assert(self@ =~= other@);
        true
    }

    /// Add every member of `other`.
    pub fn union_with(&mut self, other: &ValueSet)
        requires
            old(self).universe() == other.universe(),
        ensures
            final(self).universe() == old(self).universe(),
            final(self).wf() == old(self).wf(),
            final(self)@ == old(self)@.union(other@),
    {
        let mut i: usize = 0;
        while i < self.bits.len()
            invariant
                i <= self.bits.len(),
                self.bits.len() == other.bits.len(),
                self.bits.len() == old(self).bits.len(),
                forall|j: int|
                    0 <= j < i ==> #[trigger] self.bits@[j] == (old(self).bits@[j] || other.bits@[j]),
                forall|j: int| i <= j < self.bits.len() ==> #[trigger] self.bits@[j] == old(self).bits@[j],
            decreases self.bits.len() - i,
        {
            let ghost before = self.bits@;
            if other.bits[i] {
                self.bits.set(i, true);
            }
            assert(self.bits@[i as int] == (old(self).bits@[i as int] || other.bits@[i as int]));
            assert forall|j: int| 0 <= j < self.bits.len() && j != i implies #[trigger] self.bits@[j] == before[j] by {}
            i += 1;
        }
        assert forall|v: Value| self@.contains(v) == old(self)@.union(other@).contains(v) by {
            if v < self.bits.len() {
                assert(self.bits@[v as int] == (old(self).bits@[v as int] || other.bits@[v as int]));
            }
        }
        assert(self@ =~= old(self)@.union(other@));
    }

    /// Drop every member of `other`.
    pub fn remove_all(&mut self, other: &ValueSet)
        requires
            old(self).universe() == other.universe(),
        ensures
            final(self).universe() == old(self).universe(),
            final(self)@ == old(self)@.difference(other@),
    {
        let mut i: usize = 0;
        while i < self.bits.len()
            invariant
                i <= self.bits.len(),
                self.bits.len() == other.bits.len(),
                self.bits.len() == old(self).bits.len(),
                forall|j: int|
                    0 <= j < i ==> #[trigger] self.bits@[j] == (old(self).bits@[j] && !other.bits@[j]),
                forall|j: int| i <= j < self.bits.len() ==> #[trigger] self.bits@[j] == old(self).bits@[j],
            decreases self.bits.len() - i,
        {
            let ghost before = self.bits@;
            if other.bits[i] {
                self.bits.set(i, false);
            }
            assert(self.bits@[i as int] == (old(self).bits@[i as int] && !other.bits@[i as int]));
            assert forall|j: int| 0 <= j < self.bits.len() && j != i implies #[trigger] self.bits@[j] == before[j] by {}
            i += 1;
        }
        assert forall|v: Value| self@.contains(v) == old(self)@.difference(other@).contains(v) by {
            if v < self.bits.len() {
                assert(self.bits@[v as int] == (old(self).bits@[v as int] && !other.bits@[v as int]));
            }
        }
        assert(self@ =~= old(self)@.difference(other@));
    }

    /// Whether the set has no members.
    pub fn is_empty(&self) -> (b: bool)
        requires
            self.wf(),
        ensures
            b == (self@ == Set::<Value>::empty()),
    {
        let mut i: usize = 0;
        while i < self.bits.len()
            invariant
                i <= self.bits.len(),
                self.wf(),
                forall|j: int| 0 <= j < i ==> !self.bits@[j],
            decreases self.bits.len() - i,
        {
            if self.bits[i] {
                assert(self@.contains(i as Value));
                return false;
            }
            i += 1;
        }
        assert(self@ =~= Set::<Value>::empty());
        true
    }

    /// The members in increasing order.
    pub fn members(&self) -> (m: Vec<Value>)
        requires
            self.wf(),
        ensures
            m@ == members_below(self@, self.universe()),
    {
        let mut out: Vec<Value> = Vec::new();
        let mut i: usize = 0;
        while i < self.bits.len()
            invariant
                i <= self.bits.len(),
                self.wf(),
                out@ == members_below(self@, i as nat),
            decreases self.bits.len() - i,
        {
            if self.bits[i] {
                assert(self@.contains(i as Value));
                out.push(i as Value);
            } else {
                assert(!self@.contains(i as Value));
            }
            i += 1;
        }
        out
    }

    /// Every member is below the universe bound.
    pub proof fn lemma_bounded(&self)
        ensures
            forall|v: Value| #[trigger] self@.contains(v) ==> (v as nat) < self.universe(),
    {
    }
}

/// The members of a set below `k` are exactly its members below `k`, each once, in order.
pub proof fn lemma_members_below(s: Set<Value>, k: nat)
    requires
        k <= u32::MAX as nat + 1,
    ensures
        forall|v: Value| #[trigger] members_below(s, k).contains(v) <==> (v < k && s.contains(v)),
        forall|i: int, j: int|
            0 <= i < j < members_below(s, k).len() ==> members_below(s, k)[i] < members_below(s, k)[j],
    decreases k,
{
    if k > 0 {
        lemma_members_below(s, (k - 1) as nat);
        let rest = members_below(s, (k - 1) as nat);
        if s.contains((k - 1) as Value) {
            let m = rest.push((k - 1) as Value);
            assert forall|v: Value| #[trigger] m.contains(v) <==> (v < k && s.contains(v)) by {
                assert(rest.contains(v) <==> (v < (k - 1) as nat && s.contains(v)));
                if v == (k - 1) as Value {
                    assert(m[m.len() - 1] == v);
                } else {
                    if m.contains(v) {
                        let i = choose|i: int| 0 <= i < m.len() && m[i] == v;
                        assert(rest[i] == v);
                        assert(rest.contains(v));
                    }
                    if rest.contains(v) {
                        let i = choose|i: int| 0 <= i < rest.len() && rest[i] == v;
                        assert(m[i] == v);
                    }
                }
            }
            assert forall|i: int, j: int| 0 <= i < j < m.len() implies m[i] < m[j] by {
                if j == m.len() - 1 {
                    assert(rest.contains(rest[i]));
                }
            }
        }
    }
}

} // verus!
