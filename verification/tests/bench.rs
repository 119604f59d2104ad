use neon_compiler::bench::binary_trees::{check, make, Node};

#[test]
fn a_tree_of_depth_d_has_two_to_the_d_plus_one_minus_one_nodes() {
    for d in 0..12 {
        assert_eq!(check(&make(d)), (1i64 << (d + 1)) - 1);
    }
}

#[test]
fn depth_zero_is_a_leaf() {
    assert!(matches!(make(0), Node::Leaf));
    assert!(matches!(make(1), Node::Branch(..)));
}
