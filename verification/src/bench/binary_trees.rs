//! Binary trees: allocate complete trees of a given depth, then walk them, counting nodes.

use vstd::prelude::*;

verus! {

pub enum Node {
    Leaf,
    Branch(Box<Node>, Box<Node>),
}

/// How many nodes a tree has.
pub open spec fn size(n: Node) -> nat
    decreases n,
{
    match n {
        Node::Leaf => 1,
        Node::Branch(l, r) => 1 + size(*l) + size(*r),
    }
}

/// A complete tree of depth `d`: a leaf at 0, else a branch over two of depth `d - 1`.
pub open spec fn complete(n: Node, d: nat) -> bool
    decreases n,
{
    match n {
        Node::Leaf => d == 0,
        Node::Branch(l, r) => d > 0 && complete(*l, (d - 1) as nat) && complete(*r, (d - 1) as nat),
    }
}

/// `2` to the power `k`.
pub open spec fn pow2(k: nat) -> nat
    decreases k,
{
    if k == 0 {
        1
    } else {
        2 * pow2((k - 1) as nat)
    }
}

/// A complete tree of depth `d` has `2^(d+1) - 1` nodes.
pub proof fn lemma_complete_size(n: Node, d: nat)
    requires
        complete(n, d),
    ensures
        size(n) + 1 == pow2(d + 1),
    decreases n,
{
    match n {
        Node::Leaf => {
            assert(pow2(1) == 2 * pow2(0));
        },
        Node::Branch(l, r) => {
            lemma_complete_size(*l, (d - 1) as nat);
            lemma_complete_size(*r, (d - 1) as nat);
            assert(pow2(d + 1) == 2 * pow2(d));
        },
    }
}

/// A complete tree of the given depth.
pub fn make(depth: i32) -> (n: Node)
    requires
        depth >= 0,
    ensures
        complete(n, depth as nat),
    decreases depth,
{
    if depth == 0 {
        Node::Leaf
    } else {
        Node::Branch(Box::new(make(depth - 1)), Box::new(make(depth - 1)))
    }
}

/// How many nodes the tree has.
pub fn check(node: &Node) -> (c: i64)
    requires
        size(*node) <= i64::MAX,
    ensures
        c == size(*node),
    decreases node,
{
    match node {
        Node::Leaf => 1,
        Node::Branch(left, right) => 1 + check(left) + check(right),
    }
}

/// Walking a tree made at depth `d` counts `2^(d+1) - 1` nodes.
pub proof fn lemma_check_of_make(n: Node, d: nat)
    requires
        complete(n, d),
        pow2(d + 1) <= i64::MAX,
    ensures
        size(n) <= i64::MAX,
        size(n) == pow2(d + 1) - 1,
{
    lemma_complete_size(n, d);
}

} // verus!
